//! The machine word that links one free slot to the next.
//!
//! A free slot keeps the offset of the next free slot in its leading bytes, as
//! a little-endian number one machine word wide.

use vstd::prelude::*;

verus! {

/// The offset that names no slot: it ends the free list.
pub const SENTINEL: usize = usize::MAX;

/// The number of bytes in one machine word.
pub open spec fn word_size() -> nat {
    (usize::BITS / 8) as nat
}

/// `256` to the power `width`: the number of values that `width` bytes can hold.
pub open spec fn radix(width: nat) -> nat
    decreases width,
{
    if width == 0 {
        1
    } else {
        256 * radix((width - 1) as nat)
    }
}

/// The number that `bytes` spell, least significant byte first.
pub open spec fn le_value(bytes: Seq<u8>) -> nat
    decreases bytes.len(),
{
    if bytes.len() == 0 {
        0
    } else {
        bytes[0] as nat + 256 * le_value(bytes.drop_first())
    }
}

/// The `width` low bytes of `value`, least significant byte first.
pub open spec fn le_bytes(value: nat, width: nat) -> Seq<u8>
    decreases width,
{
    if width == 0 {
        Seq::empty()
    } else {
        seq![(value % 256) as u8] + le_bytes(value / 256, (width - 1) as nat)
    }
}

/// `le_bytes` yields as many bytes as it is asked for.
pub proof fn lemma_le_bytes_len(value: nat, width: nat)
    ensures
        le_bytes(value, width).len() == width,
    decreases width,
{
    if width > 0 {
        lemma_le_bytes_len(value / 256, (width - 1) as nat);
    }
}

/// What some bytes spell is less than the number of values they can hold.
pub proof fn lemma_le_value_bound(bytes: Seq<u8>)
    ensures
        le_value(bytes) < radix(bytes.len()),
    decreases bytes.len(),
{
    if bytes.len() > 0 {
        lemma_le_value_bound(bytes.drop_first());
    }
}

/// More bytes hold at least as many values.
pub proof fn lemma_radix_grows(narrow: nat, wide: nat)
    requires
        narrow <= wide,
    ensures
        1 <= radix(narrow) <= radix(wide),
    decreases wide,
{
    if narrow < wide {
        lemma_radix_grows(narrow, (wide - 1) as nat);
    } else if narrow > 0 {
        lemma_radix_grows((narrow - 1) as nat, (wide - 1) as nat);
    }
}

/// Reading back what was written gives the number that was written, as long
/// as the number fits the width.
pub proof fn lemma_le_round_trip(value: nat, width: nat)
    requires
        value < radix(width),
    ensures
        le_value(le_bytes(value, width)) == value,
    decreases width,
{
    if width > 0 {
        let rest = le_bytes(value / 256, (width - 1) as nat);
        lemma_le_round_trip(value / 256, (width - 1) as nat);
        assert(le_bytes(value, width).drop_first() =~= rest);
    }
}

/// A machine word holds exactly the values of `usize`.
pub proof fn lemma_word_holds_usize()
    ensures
        word_size() == 4 || word_size() == 8,
        radix(word_size()) == usize::MAX + 1,
{
    reveal_with_fuel(radix, 9);
    if usize::BITS == 32 {
        assert(radix(4) == 0x1_0000_0000);
    } else {
        assert(radix(8) == 0x1_0000_0000_0000_0000);
    }
}

/// An offset that is written to a word and read back is the same offset.
pub proof fn lemma_word_round_trip(offset: usize)
    ensures
        le_bytes(offset as nat, word_size()).len() == word_size(),
        le_value(le_bytes(offset as nat, word_size())) == offset,
{
    lemma_word_holds_usize();
    lemma_le_bytes_len(offset as nat, word_size());
    lemma_le_round_trip(offset as nat, word_size());
}

/// The number of bytes in one machine word.
pub fn word_bytes() -> (width: usize)
    ensures
        width == word_size(),
        width == 4 || width == 8,
{
    (usize::BITS / 8) as usize
}

/// Writes `offset` into the leading word of `slot`, least significant byte
/// first, and leaves the bytes behind the word as they are.
pub fn write_word(slot: &mut Vec<u8>, offset: usize)
    requires
        old(slot)@.len() >= word_size(),
    ensures
        final(slot)@ == le_bytes(offset as nat, word_size()) + old(slot)@.skip(word_size() as int),
{
    let width = word_bytes();
    let mut rest: usize = offset;
    let mut i: usize = 0;
    while i < width
        invariant
            i <= width,
            width == word_size(),
            width <= slot@.len(),
            slot@.len() == old(slot)@.len(),
            forall|j: int| i <= j < slot@.len() ==> slot@[j] == old(slot)@[j],
            le_bytes(offset as nat, width as nat) == slot@.take(i as int) + le_bytes(
                rest as nat,
                (width - i) as nat,
            ),
        decreases width - i,
    {
        let ghost before = slot@;
        slot.set(i, (rest % 256) as u8);
        proof {
            let tail = le_bytes((rest / 256) as nat, (width - i - 1) as nat);
            assert(slot@.take(i + 1) =~= before.take(i as int).push((rest % 256) as u8));
            assert(before.take(i as int) + (seq![(rest % 256) as u8] + tail) =~= slot@.take(i + 1)
                + tail);
        }
        rest = rest / 256;
        i += 1;
    }
    proof {
        lemma_le_bytes_len(offset as nat, width as nat);
        assert(slot@ =~= le_bytes(offset as nat, word_size()) + old(slot)@.skip(
            word_size() as int,
        ));
    }
}

/// Reads the offset that the leading word of `slot` spells.
pub fn read_word(slot: &[u8]) -> (offset: usize)
    requires
        slot@.len() >= word_size(),
    ensures
        offset == le_value(slot@.take(word_size() as int)),
{
    let width = word_bytes();
    let mut offset: usize = 0;
    let mut i: usize = width;
    while i > 0
        invariant
            i <= width,
            width == word_size(),
            width <= slot@.len(),
            offset == le_value(slot@.subrange(i as int, width as int)),
        decreases i,
    {
        i -= 1;
        proof {
            let here = slot@.subrange(i as int, width as int);
            assert(here.drop_first() =~= slot@.subrange(i + 1, width as int));
            lemma_le_value_bound(here);
            lemma_radix_grows(here.len(), width as nat);
            lemma_word_holds_usize();
        }
        offset = offset * 256 + slot[i] as usize;
    }
    proof {
        assert(slot@.subrange(0, width as int) =~= slot@.take(word_size() as int));
    }
    offset
}

} // verus!
