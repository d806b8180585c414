//! The pool as its contracts see it: two cursors and the offsets on lease.
//!
//! [`PoolView`] is the mathematical state of a pool. Its two transitions,
//! [`PoolView::acquire`] and [`PoolView::release`], say what a lease and its
//! return do to that state, and the lemmas below show what holds of every
//! state that a pool can reach.

use vstd::prelude::*;
use crate::content::zeros;
use crate::word::{
    SENTINEL, le_bytes, le_value, lemma_le_bytes_len, lemma_le_round_trip, lemma_word_holds_usize,
    word_size,
};

verus! {

/// The state of a pool, with byte offsets as natural numbers.
pub struct PoolView {
    /// Bytes in one slot.
    pub capacity: nat,
    /// Bytes in the whole backing storage.
    pub backing_len: nat,
    /// The bump cursor: the offset of the first slot that was never leased.
    pub init: nat,
    /// The free list, its head first: the slots that came back and wait.
    pub free: Seq<nat>,
    /// The offsets of the slots that are on lease.
    pub live: Set<nat>,
    /// The bytes of every slot that is not on lease, by its offset.
    pub memory: Map<nat, Seq<u8>>,
}

/// One call that a user of a pool can make.
pub enum Call {
    /// Ask for a buffer.
    Get,
    /// Hand back the buffer whose slot starts at this offset and holds
    /// these bytes.
    Release(nat, Seq<u8>),
}

impl PoolView {
    /// A pool that has not leased anything yet: every slot is in place and
    /// holds zeros.
    pub open spec fn fresh(capacity: nat, backing_len: nat) -> PoolView {
        PoolView {
            capacity,
            backing_len,
            init: 0,
            free: Seq::empty(),
            live: Set::empty(),
            memory: Map::new(
                |offset: nat| offset % capacity == 0 && offset + capacity <= backing_len,
                |offset: nat| zeros(capacity),
            ),
        }
    }

    /// The number of slots that the backing storage holds.
    pub open spec fn slot_count(self) -> nat {
        self.backing_len / self.capacity
    }

    /// Whether `offset` starts a slot of the backing storage.
    pub open spec fn is_slot(self, offset: nat) -> bool {
        offset % self.capacity == 0 && offset + self.capacity <= self.backing_len
    }

    /// Whether `offset` starts a slot that the bump cursor has passed.
    pub open spec fn issued(self, offset: nat) -> bool {
        offset % self.capacity == 0 && offset < self.init
    }

    /// The head of the free list, or the sentinel if the list is empty.
    pub open spec fn head(self) -> nat {
        self.link(-1)
    }

    /// What follows place `i` of the free list: the next offset on the list,
    /// or the sentinel behind the last one.
    pub open spec fn link(self, i: int) -> nat {
        if 0 <= i + 1 < self.free.len() {
            self.free[i + 1]
        } else {
            SENTINEL as nat
        }
    }

    /// Each slot that the bump cursor has passed is either on lease or on the
    /// free list, never both, and no other offset is on either.
    pub open spec fn ledger_wf(self) -> bool {
        &&& self.free.no_duplicates()
        &&& forall|offset: nat| #[trigger]
            self.free.contains(offset) ==> self.issued(offset) && !self.live.contains(offset)
        &&& forall|offset: nat| #[trigger] self.live.contains(offset) ==> self.issued(offset)
        &&& forall|offset: nat| #[trigger]
            self.issued(offset) ==> self.live.contains(offset) || self.free.contains(offset)
    }

    /// The slots that are not on lease are in place and whole, and the
    /// leading word of each slot on the free list names the slot that follows
    /// it on the list.
    pub open spec fn memory_wf(self) -> bool {
        &&& forall|offset: nat|
            #![trigger self.memory.dom().contains(offset)]
            #![trigger self.is_slot(offset)]
            self.memory.dom().contains(offset) <==> self.is_slot(offset) && !self.live.contains(
                offset,
            )
        &&& forall|offset: nat| #[trigger]
            self.memory.dom().contains(offset) ==> self.memory[offset].len() == self.capacity
        &&& forall|i: int|
            0 <= i < self.free.len() ==> le_value(
                (#[trigger] self.memory[self.free[i]]).take(word_size() as int),
            ) == self.link(i)
    }

    /// What holds of every pool.
    pub open spec fn wf(self) -> bool {
        &&& self.capacity >= word_size()
        &&& self.backing_len <= usize::MAX
        &&& self.init % self.capacity == 0
        &&& self.init <= self.backing_len
        &&& self.ledger_wf()
        &&& self.memory_wf()
    }

    /// Whether a slot is left that was never leased.
    pub open spec fn can_bump(self) -> bool {
        self.init + self.capacity <= self.backing_len
    }

    /// The offset of the slot that the next lease gets: the bump cursor while
    /// a fresh slot is left, then the head of the free list, or nothing when
    /// that list is empty too.
    pub open spec fn next_offset(self) -> Option<nat> {
        if self.can_bump() {
            Some(self.init)
        } else if self.free.len() > 0 {
            Some(self.free[0])
        } else {
            None
        }
    }

    /// The state after a request for a buffer. The slot that is leased
    /// leaves the memory of the pool.
    pub open spec fn acquire(self) -> PoolView {
        if self.can_bump() {
            PoolView {
                init: self.init + self.capacity,
                live: self.live.insert(self.init),
                memory: self.memory.remove(self.init),
                ..self
            }
        } else if self.free.len() > 0 {
            PoolView {
                free: self.free.drop_first(),
                live: self.live.insert(self.free[0]),
                memory: self.memory.remove(self.free[0]),
                ..self
            }
        } else {
            self
        }
    }

    /// Whether the slot at `offset`, holding `bytes`, can be handed back: it
    /// is on lease, and the bytes are a whole slot.
    pub open spec fn accepts(self, offset: nat, bytes: Seq<u8>) -> bool {
        self.live.contains(offset) && bytes.len() == self.capacity
    }

    /// The bytes of a slot that held `bytes` and was put on the free list:
    /// the leading word names the old head of the list, the rest is as it was.
    pub open spec fn shelved(self, bytes: Seq<u8>) -> Seq<u8> {
        le_bytes(self.head(), word_size()) + bytes.skip(word_size() as int)
    }

    /// The state after the slot at `offset`, holding `bytes`, was handed
    /// back: it is the new head of the free list. What cannot be handed back
    /// changes nothing.
    pub open spec fn release(self, offset: nat, bytes: Seq<u8>) -> PoolView {
        if self.accepts(offset, bytes) {
            PoolView {
                free: seq![offset] + self.free,
                live: self.live.remove(offset),
                memory: self.memory.insert(offset, self.shelved(bytes)),
                ..self
            }
        } else {
            self
        }
    }

    /// The state after one call.
    pub open spec fn step(self, call: Call) -> PoolView {
        match call {
            Call::Get => self.acquire(),
            Call::Release(offset, bytes) => self.release(offset, bytes),
        }
    }

    /// The state after a sequence of calls, made one after the other.
    pub open spec fn run(self, calls: Seq<Call>) -> PoolView
        decreases calls.len(),
    {
        if calls.len() == 0 {
            self
        } else {
            self.run(calls.drop_last()).step(calls.last())
        }
    }
}

/// The offsets below `count` slots that start a slot.
pub open spec fn slot_offsets(capacity: nat, count: nat) -> Set<nat> {
    Set::new(|offset: nat| offset % capacity == 0 && offset < count * capacity)
}

/// Two slot offsets that differ are a whole slot apart.
pub proof fn lemma_slots_apart(capacity: nat, low: nat, high: nat)
    requires
        capacity > 0,
        low % capacity == 0,
        high % capacity == 0,
        low < high,
    ensures
        low + capacity <= high,
        low / capacity < high / capacity,
        low == (low / capacity) * capacity,
        high == (high / capacity) * capacity,
{
    let a = low / capacity;
    let b = high / capacity;
    assert(low == a * capacity) by (nonlinear_arith)
        requires
            capacity > 0,
            low % capacity == 0,
            a == low / capacity,
    ;
    assert(high == b * capacity) by (nonlinear_arith)
        requires
            capacity > 0,
            high % capacity == 0,
            b == high / capacity,
    ;
    assert(a < b && (a + 1) * capacity <= b * capacity) by (nonlinear_arith)
        requires
            capacity > 0,
            a * capacity < b * capacity,
    ;
    assert((a + 1) * capacity == a * capacity + capacity) by (nonlinear_arith);
}

/// The slot behind a slot offset is the next slot.
pub proof fn lemma_next_slot(capacity: nat, offset: nat)
    requires
        capacity > 0,
        offset % capacity == 0,
    ensures
        (offset + capacity) % capacity == 0,
        (offset + capacity) / capacity == offset / capacity + 1,
        offset == (offset / capacity) * capacity,
{
    let a = offset / capacity;
    assert(offset == a * capacity) by (nonlinear_arith)
        requires
            capacity > 0,
            offset % capacity == 0,
            a == offset / capacity,
    ;
    assert((a * capacity + capacity) % capacity == 0 && (a * capacity + capacity) / capacity == a
        + 1) by (nonlinear_arith)
        requires
            capacity > 0,
    ;
}

/// `count` slots have `count` offsets.
pub proof fn lemma_slot_offsets_len(capacity: nat, count: nat)
    requires
        capacity > 0,
    ensures
        slot_offsets(capacity, count).finite(),
        slot_offsets(capacity, count).len() == count,
    decreases count,
{
    if count == 0 {
        assert(slot_offsets(capacity, count) =~= Set::empty());
    } else {
        let fewer = (count - 1) as nat;
        let last = fewer * capacity;
        lemma_slot_offsets_len(capacity, fewer);
        assert(count * capacity == last + capacity) by (nonlinear_arith)
            requires
                fewer == count - 1,
                last == fewer * capacity,
        ;
        assert(last % capacity == 0) by (nonlinear_arith)
            requires
                capacity > 0,
                last == fewer * capacity,
        ;
        assert forall|offset: nat|
            slot_offsets(capacity, count).contains(offset) == slot_offsets(
                capacity,
                fewer,
            ).insert(last).contains(offset) by {
            if offset % capacity == 0 && last < offset {
                lemma_slots_apart(capacity, last, offset);
            }
        }
        assert(slot_offsets(capacity, count) =~= slot_offsets(capacity, fewer).insert(last));
    }
}

/// A backing storage whose bump cursor can go no further holds as many slots
/// as the cursor has passed.
pub proof fn lemma_all_slots_issued(capacity: nat, init: nat, backing_len: nat)
    requires
        capacity > 0,
        init % capacity == 0,
        init <= backing_len,
    ensures
        init / capacity <= backing_len / capacity,
        init + capacity > backing_len <==> init / capacity == backing_len / capacity,
{
    let a = init / capacity;
    let b = backing_len / capacity;
    assert(init == a * capacity) by (nonlinear_arith)
        requires
            capacity > 0,
            init % capacity == 0,
            a == init / capacity,
    ;
    assert(b * capacity <= backing_len < b * capacity + capacity) by (nonlinear_arith)
        requires
            capacity > 0,
            b == backing_len / capacity,
    ;
    assert(a <= b) by (nonlinear_arith)
        requires
            capacity > 0,
            a * capacity < b * capacity + capacity,
    ;
    if a < b {
        assert(a * capacity + capacity <= b * capacity) by (nonlinear_arith)
            requires
                capacity > 0,
                a < b,
        ;
    }
}

/// A slot offset lies within the backing storage exactly when its slot is
/// one of the slots that the storage holds.
pub proof fn lemma_slot_in_storage(capacity: nat, offset: nat, backing_len: nat)
    requires
        capacity > 0,
        offset % capacity == 0,
    ensures
        offset / capacity < backing_len / capacity <==> offset + capacity <= backing_len,
{
    let a = offset / capacity;
    let b = backing_len / capacity;
    assert(offset == a * capacity) by (nonlinear_arith)
        requires
            capacity > 0,
            offset % capacity == 0,
            a == offset / capacity,
    ;
    assert(b * capacity <= backing_len < b * capacity + capacity) by (nonlinear_arith)
        requires
            capacity > 0,
            b == backing_len / capacity,
    ;
    if a < b {
        assert(a * capacity + capacity <= b * capacity) by (nonlinear_arith)
            requires
                capacity > 0,
                a < b,
        ;
    } else {
        assert(a * capacity >= b * capacity) by (nonlinear_arith)
            requires
                capacity > 0,
                a >= b,
        ;
    }
}

impl PoolView {
    /// A pool that has leased nothing is well formed.
    pub proof fn lemma_fresh_wf(capacity: nat, backing_len: nat)
        requires
            capacity >= word_size(),
            backing_len <= usize::MAX,
        ensures
            PoolView::fresh(capacity, backing_len).wf(),
    {
        assert(0nat % capacity == 0) by (nonlinear_arith)
            requires
                capacity > 0,
        ;
    }

    /// A slot that the bump cursor has passed lies within the backing
    /// storage, and its offset is not the sentinel.
    pub proof fn lemma_issued_is_slot(self, offset: nat)
        requires
            self.wf(),
            self.issued(offset),
        ensures
            self.is_slot(offset),
            offset + self.capacity <= self.init,
            offset < SENTINEL,
    {
        lemma_slots_apart(self.capacity, offset, self.init);
    }

    /// The sentinel names no slot of the backing storage, so the head of the
    /// free list is the sentinel only when the list is empty.
    pub proof fn lemma_sentinel_names_no_slot(self)
        requires
            self.wf(),
        ensures
            !self.is_slot(SENTINEL as nat),
            self.head() == SENTINEL <==> self.free.len() == 0,
    {
        if self.free.len() > 0 {
            assert(self.free.contains(self.free[0]));
        }
    }

    /// A lease keeps the ledger of the pool in order.
    proof fn lemma_acquire_ledger(self)
        requires
            self.wf(),
        ensures
            self.acquire().ledger_wf(),
            self.acquire().init % self.capacity == 0,
            self.acquire().init <= self.backing_len,
    {
        let after = self.acquire();
        if self.can_bump() {
            lemma_next_slot(self.capacity, self.init);
            assert forall|offset: nat| #[trigger] after.issued(offset) implies after.live.contains(
                offset,
            ) || after.free.contains(offset) by {
                if offset > self.init {
                    lemma_slots_apart(self.capacity, self.init, offset);
                }
                if offset < self.init {
                    assert(self.issued(offset));
                }
            }
        } else if self.free.len() > 0 {
            let head = self.free[0];
            assert(self.free.contains(head));
            assert forall|offset: nat| #[trigger] after.free.contains(offset) implies after.issued(
                offset,
            ) && !after.live.contains(offset) by {
                assert(self.free.contains(offset));
            }
            assert forall|offset: nat| #[trigger] after.issued(offset) implies after.live.contains(
                offset,
            ) || after.free.contains(offset) by {
                assert(self.issued(offset));
                if self.free.contains(offset) && offset != head {
                    let i = choose|i: int| 0 <= i < self.free.len() && self.free[i] == offset;
                    assert(after.free[i - 1] == offset);
                }
            }
        }
    }

    /// A lease keeps the pool well formed.
    pub proof fn lemma_acquire_wf(self)
        requires
            self.wf(),
        ensures
            self.acquire().wf(),
    {
        let after = self.acquire();
        self.lemma_acquire_ledger();
        if self.can_bump() {
            assert forall|i: int| 0 <= i < after.free.len() implies le_value(
                (#[trigger] after.memory[after.free[i]]).take(word_size() as int),
            ) == after.link(i) by {
                assert(self.free.contains(self.free[i]));
            }
        }
    }

    /// Handing a slot back keeps the ledger of the pool in order.
    proof fn lemma_release_ledger(self, offset: nat, bytes: Seq<u8>)
        requires
            self.wf(),
            self.accepts(offset, bytes),
        ensures
            self.release(offset, bytes).ledger_wf(),
    {
        let after = self.release(offset, bytes);
        assert(after.free[0] == offset);
        assert forall|other: nat| #[trigger] after.free.contains(other) implies after.issued(other)
            && !after.live.contains(other) by {
            let i = choose|i: int| 0 <= i < after.free.len() && after.free[i] == other;
            if i > 0 {
                assert(self.free.contains(other));
            }
        }
        assert forall|other: nat| #[trigger] after.issued(other) implies after.live.contains(other)
            || after.free.contains(other) by {
            assert(self.issued(other));
            if self.free.contains(other) {
                let i = choose|i: int| 0 <= i < self.free.len() && self.free[i] == other;
                assert(after.free[i + 1] == other);
            }
        }
        assert forall|i: int, j: int|
            0 <= i < after.free.len() && 0 <= j < after.free.len() && i != j implies after.free[i]
            != after.free[j] by {
            if i > 0 {
                assert(self.free.contains(self.free[i - 1]));
            }
            if j > 0 {
                assert(self.free.contains(self.free[j - 1]));
            }
        }
    }

    /// The leading word of a slot that was put on the free list spells the
    /// old head of the list.
    pub proof fn lemma_shelved(self, bytes: Seq<u8>)
        requires
            self.wf(),
            bytes.len() == self.capacity,
        ensures
            self.shelved(bytes).len() == self.capacity,
            le_value(self.shelved(bytes).take(word_size() as int)) == self.head(),
    {
        let head = self.head();
        if self.free.len() > 0 {
            assert(self.free.contains(self.free[0]));
        }
        lemma_word_holds_usize();
        lemma_le_bytes_len(head, word_size());
        lemma_le_round_trip(head, word_size());
        assert(self.shelved(bytes).take(word_size() as int) =~= le_bytes(head, word_size()));
    }

    /// Handing a slot back keeps the pool well formed.
    pub proof fn lemma_release_wf(self, offset: nat, bytes: Seq<u8>)
        requires
            self.wf(),
        ensures
            self.release(offset, bytes).wf(),
    {
        let after = self.release(offset, bytes);
        if self.accepts(offset, bytes) {
            self.lemma_release_ledger(offset, bytes);
            self.lemma_shelved(bytes);
            self.lemma_issued_is_slot(offset);
            assert forall|i: int| 0 <= i < after.free.len() implies le_value(
                (#[trigger] after.memory[after.free[i]]).take(word_size() as int),
            ) == after.link(i) by {
                if i > 0 {
                    assert(self.free.contains(self.free[i - 1]));
                }
            }
        }
    }

    /// Whatever calls are made, and in whatever order, the pool stays well
    /// formed, and its slots stay what they are.
    pub proof fn lemma_run_wf(self, calls: Seq<Call>)
        requires
            self.wf(),
        ensures
            self.run(calls).wf(),
            self.run(calls).capacity == self.capacity,
            self.run(calls).backing_len == self.backing_len,
        decreases calls.len(),
    {
        if calls.len() > 0 {
            let before = self.run(calls.drop_last());
            self.lemma_run_wf(calls.drop_last());
            match calls.last() {
                Call::Get => before.lemma_acquire_wf(),
                Call::Release(offset, bytes) => before.lemma_release_wf(offset, bytes),
            }
        }
    }

    /// Every slot that the bump cursor has passed is counted once: on lease or
    /// on the free list.
    pub proof fn lemma_census(self)
        requires
            self.wf(),
        ensures
            self.live.finite(),
            self.live.len() + self.free.len() == self.init / self.capacity,
            self.init / self.capacity <= self.slot_count(),
    {
        let passed = self.init / self.capacity;
        let all = slot_offsets(self.capacity, passed);
        let waiting = self.free.to_set();
        lemma_slot_offsets_len(self.capacity, passed);
        lemma_all_slots_issued(self.capacity, self.init, self.backing_len);
        assert(self.init == passed * self.capacity) by (nonlinear_arith)
            requires
                self.capacity > 0,
                self.init % self.capacity == 0,
                passed == self.init / self.capacity,
        ;
        assert forall|offset: nat| all.contains(offset) == (self.live + waiting).contains(
            offset,
        ) by {
            if all.contains(offset) {
                assert(self.issued(offset));
            }
        }
        assert(all =~= self.live + waiting);
        assert(self.live.subset_of(all));
        vstd::set_lib::lemma_set_disjoint_lens(self.live, waiting);
        self.free.unique_seq_to_set();
    }

    /// The next lease gets a slot that nobody holds, and that lies within the
    /// backing storage.
    pub proof fn lemma_exclusive(self)
        requires
            self.wf(),
        ensures
            match self.next_offset() {
                Some(offset) => {
                    &&& !self.live.contains(offset)
                    &&& self.is_slot(offset)
                    &&& self.acquire().live == self.live.insert(offset)
                },
                None => self.acquire() == self,
            },
    {
        if !self.can_bump() && self.free.len() > 0 {
            let head = self.free[0];
            assert(self.free.contains(head));
            self.lemma_issued_is_slot(head);
        }
    }

    /// No more slots are on lease than the backing storage holds.
    pub proof fn lemma_conservation(self)
        requires
            self.wf(),
        ensures
            self.live.finite(),
            self.live.len() <= self.slot_count(),
    {
        self.lemma_census();
    }

    /// A request comes back empty exactly when every slot of the backing
    /// storage is on lease.
    pub proof fn lemma_exhaustion(self)
        requires
            self.wf(),
        ensures
            self.next_offset() is None <==> self.live.len() == self.slot_count(),
    {
        self.lemma_census();
        lemma_all_slots_issued(self.capacity, self.init, self.backing_len);
    }

    /// Once a slot has been handed back, the next request succeeds. When no
    /// fresh slot is left, it gets that very slot.
    pub proof fn lemma_release_revives(self, offset: nat, bytes: Seq<u8>)
        requires
            self.wf(),
            self.accepts(offset, bytes),
        ensures
            self.release(offset, bytes).next_offset() is Some,
            !self.can_bump() ==> self.release(offset, bytes).next_offset() == Some(offset),
    {
    }

    /// Whatever calls were made since the pool was new, and in whatever
    /// order: no more slots are on lease than the backing storage holds, and
    /// the slot that the next lease gets is not on lease.
    pub proof fn lemma_reachable(capacity: nat, backing_len: nat, calls: Seq<Call>)
        requires
            capacity >= word_size(),
            backing_len <= usize::MAX,
        ensures
            ({
                let pool = PoolView::fresh(capacity, backing_len).run(calls);
                &&& pool.wf()
                &&& pool.live.finite()
                &&& pool.live.len() <= backing_len / capacity
                &&& pool.next_offset() matches Some(offset) ==> !pool.live.contains(offset)
            }),
    {
        let fresh = PoolView::fresh(capacity, backing_len);
        PoolView::lemma_fresh_wf(capacity, backing_len);
        fresh.lemma_run_wf(calls);
        fresh.run(calls).lemma_conservation();
        fresh.run(calls).lemma_exclusive();
    }

    /// A pool that is asked again and again, and gets nothing back, leases
    /// its slots in the order of their offsets until none is left: after
    /// `count` requests the first `count` slots are on lease, and when that
    /// is every slot, the next request comes back empty.
    pub proof fn lemma_fill(capacity: nat, backing_len: nat, count: nat)
        requires
            capacity >= word_size(),
            backing_len <= usize::MAX,
            count <= backing_len / capacity,
        ensures
            ({
                let pool = PoolView::fresh(capacity, backing_len).run(gets(count));
                &&& pool.wf()
                &&& pool.init == count * capacity
                &&& pool.free == Seq::<nat>::empty()
                &&& pool.live == slot_offsets(capacity, count)
                &&& pool.live.len() == count
                &&& pool.next_offset() == if count < backing_len / capacity {
                    Some(count * capacity)
                } else {
                    None
                }
            }),
        decreases count,
    {
        let fresh = PoolView::fresh(capacity, backing_len);
        let pool = fresh.run(gets(count));
        PoolView::lemma_fresh_wf(capacity, backing_len);
        fresh.lemma_run_wf(gets(count));
        lemma_slot_offsets_len(capacity, count);
        assert((count * capacity) % capacity == 0 && (count * capacity) / capacity == count)
            by (nonlinear_arith)
            requires
                capacity > 0,
        ;
        lemma_slot_in_storage(capacity, count * capacity, backing_len);
        if count == 0 {
            assert(pool == fresh);
            assert(pool.live =~= slot_offsets(capacity, count));
        } else {
            let fewer = (count - 1) as nat;
            let before = fresh.run(gets(fewer));
            PoolView::lemma_fill(capacity, backing_len, fewer);
            fresh.lemma_run_wf(gets(fewer));
            assert(gets(count).drop_last() =~= gets(fewer));
            assert(pool == before.acquire());
            assert(count * capacity == fewer * capacity + capacity) by (nonlinear_arith)
                requires
                    fewer == count - 1,
            ;
            lemma_slot_in_storage(capacity, fewer * capacity, backing_len);
            assert(before.can_bump());
            assert forall|offset: nat|
                pool.live.contains(offset) == slot_offsets(capacity, count).contains(
                    offset,
                ) by {
                if offset % capacity == 0 && before.init < offset {
                    lemma_slots_apart(capacity, before.init, offset);
                }
            }
            assert(pool.live =~= slot_offsets(capacity, count));
        }
    }
}

/// `count` requests for a buffer, one after the other.
pub open spec fn gets(count: nat) -> Seq<Call> {
    Seq::new(count, |i: int| Call::Get)
}

} // verus!
