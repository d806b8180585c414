//! What the operations of a buffer do to its content, as functions on
//! sequences of bytes.

use vstd::prelude::*;

verus! {

/// `count` bytes that are all zero.
pub open spec fn zeros(count: nat) -> Seq<u8> {
    Seq::new(count, |i: int| 0u8)
}

/// `memory` with the bytes from `from` up to, not including, `to` set to zero.
pub open spec fn zeroed(memory: Seq<u8>, from: int, to: int) -> Seq<u8> {
    Seq::new(
        memory.len(),
        |i: int|
            if from <= i < to {
                0u8
            } else {
                memory[i]
            },
    )
}

/// The content of a buffer of capacity `capacity` that held `content` and was
/// resized to `size`: cut short, or filled up with zeros as far as the
/// capacity goes.
pub open spec fn resized(content: Seq<u8>, capacity: nat, size: nat) -> Seq<u8> {
    if size <= content.len() {
        content.take(size as int)
    } else if size <= capacity {
        content + zeros((size - content.len()) as nat)
    } else {
        content + zeros((capacity - content.len()) as nat)
    }
}

/// How many of `wanted` more bytes fit into a buffer of capacity `capacity`
/// that holds `len` bytes.
pub open spec fn fitting(capacity: nat, len: nat, wanted: nat) -> nat {
    if wanted <= capacity - len {
        wanted
    } else {
        (capacity - len) as nat
    }
}

/// The content of a buffer of capacity `capacity` that held `content` and
/// was asked to take one more byte: the byte is appended if it fits, and
/// nothing changes if it does not.
pub open spec fn pushed(content: Seq<u8>, capacity: nat, byte: u8) -> Seq<u8> {
    if content.len() < capacity {
        content.push(byte)
    } else {
        content
    }
}

/// The content after `bytes` were pushed one at a time, in order.
pub open spec fn pushed_all(content: Seq<u8>, capacity: nat, bytes: Seq<u8>) -> Seq<u8>
    decreases bytes.len(),
{
    if bytes.len() == 0 {
        content
    } else {
        pushed(pushed_all(content, capacity, bytes.drop_last()), capacity, bytes.last())
    }
}

/// The content after `bytes` were appended to `content` as far as they fit.
pub open spec fn appended(content: Seq<u8>, capacity: nat, bytes: Seq<u8>) -> Seq<u8> {
    content + bytes.take(fitting(capacity, content.len(), bytes.len()) as int)
}

/// Pushing into an empty buffer succeeds as long as the capacity lasts: the
/// first `capacity` bytes become the content, and every push after that
/// leaves it unchanged.
pub proof fn lemma_push_until_full(capacity: nat, bytes: Seq<u8>)
    ensures
        pushed_all(Seq::empty(), capacity, bytes) == if bytes.len() <= capacity {
            bytes
        } else {
            bytes.take(capacity as int)
        },
    decreases bytes.len(),
{
    if bytes.len() > 0 {
        let before = bytes.drop_last();
        lemma_push_until_full(capacity, before);
        if bytes.len() <= capacity {
            assert(before.push(bytes.last()) =~= bytes);
        } else if before.len() <= capacity {
            assert(before =~= bytes.take(capacity as int));
        } else {
            assert(before.take(capacity as int) =~= bytes.take(capacity as int));
        }
    }
}

/// Pushing bytes one at a time gives what appending them at once gives.
pub proof fn lemma_push_all_appends(content: Seq<u8>, capacity: nat, bytes: Seq<u8>)
    requires
        content.len() <= capacity,
    ensures
        pushed_all(content, capacity, bytes) == appended(content, capacity, bytes),
    decreases bytes.len(),
{
    if bytes.len() == 0 {
        assert(appended(content, capacity, bytes) =~= content);
    } else {
        let before = bytes.drop_last();
        lemma_push_all_appends(content, capacity, before);
        assert(pushed(appended(content, capacity, before), capacity, bytes.last()) =~= appended(
            content,
            capacity,
            bytes,
        ));
    }
}

/// Nothing can be appended to a full buffer: its content stays as it is.
pub proof fn lemma_append_to_full(content: Seq<u8>, capacity: nat, bytes: Seq<u8>)
    requires
        content.len() == capacity,
    ensures
        fitting(capacity, content.len(), bytes.len()) == 0,
        appended(content, capacity, bytes) == content,
{
}

/// A resize keeps the bytes that stay in use, fills every byte that comes
/// into use with zero, and ends at `size` or at the capacity, whichever is
/// less.
pub proof fn lemma_resized(content: Seq<u8>, capacity: nat, size: nat)
    requires
        content.len() <= capacity,
    ensures
        resized(content, capacity, size).len() == if size <= capacity {
            size
        } else {
            capacity
        },
        forall|i: int|
            0 <= i < resized(content, capacity, size).len() ==> #[trigger] resized(
                content,
                capacity,
                size,
            )[i] == if i < content.len() {
                content[i]
            } else {
                0u8
            },
{
}

/// A buffer that is cut short and then resized to its old length does not
/// get its old bytes back: the bytes that were cut off are zero.
pub proof fn lemma_resize_round_trip(content: Seq<u8>, capacity: nat, shorter: nat)
    requires
        shorter <= content.len() <= capacity,
    ensures
        resized(resized(content, capacity, shorter), capacity, content.len()) == content.take(
            shorter as int,
        ) + zeros((content.len() - shorter) as nat),
{
}

} // verus!
