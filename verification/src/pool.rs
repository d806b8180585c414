//! The pool: backing storage carved into slots, and the two cursors that
//! say which slot is leased next.

use vstd::prelude::*;
use crate::buffer::Buffer;
use crate::content::zeros;
use crate::model::{PoolView, lemma_slot_in_storage, lemma_slots_apart};
use crate::word::{SENTINEL, le_value, read_word, word_size, write_word};

verus! {

/// A memory pool that hands out buffers of one fixed capacity.
///
/// A slot that was never leased is found by the bump cursor. A slot that
/// came back is found through the free list, which is threaded through the
/// free slots themselves: the leading word of each names the next one.
///
/// Whoever calls [`Pool::get`] or [`Pool::release`] holds the pool
/// exclusively for the length of the call. Reading a cursor and moving it is
/// therefore one step that nothing can come between, and the calls of all
/// users take effect one after the other. Users on several threads share a
/// pool behind a lock.
pub struct Pool {
    /// The backing storage, slot by slot. A slot on lease has left its place.
    slots: Vec<Option<Vec<u8>>>,
    /// The length of the backing storage in bytes.
    backing_len: usize,
    /// The capacity of a single buffer.
    capacity: usize,
    /// The offset of the first slot that was never leased.
    init: usize,
    /// The offset of the first slot of the free list, or the sentinel.
    free: usize,
    /// The free list, as the words in the free slots spell it.
    chain: Ghost<Seq<nat>>,
}

impl View for Pool {
    type V = PoolView;

    closed spec fn view(&self) -> PoolView {
        PoolView {
            capacity: self.capacity as nat,
            backing_len: self.backing_len as nat,
            init: self.init as nat,
            free: self.chain@,
            live: Set::new(|offset: nat| self.vacant(offset)),
            memory: Map::new(
                |offset: nat| self.in_place(offset),
                |offset: nat| self.bytes_at(offset),
            ),
        }
    }
}

impl Pool {
    /// The place of the slot that starts at `offset`.
    spec fn index_of(&self, offset: nat) -> int {
        offset as int / self.capacity as int
    }

    /// Whether `offset` starts a slot that has left its place.
    spec fn vacant(&self, offset: nat) -> bool {
        &&& offset as int % self.capacity as int == 0
        &&& self.index_of(offset) < self.slots@.len()
        &&& self.slots@[self.index_of(offset)] is None
    }

    /// Whether `offset` starts a slot that is in its place.
    spec fn in_place(&self, offset: nat) -> bool {
        &&& offset as int % self.capacity as int == 0
        &&& self.index_of(offset) < self.slots@.len()
        &&& self.slots@[self.index_of(offset)] is Some
    }

    /// The bytes of the slot that starts at `offset`, if it is in its place.
    spec fn bytes_at(&self, offset: nat) -> Seq<u8> {
        match self.slots@[self.index_of(offset)] {
            Some(bytes) => bytes@,
            None => Seq::empty(),
        }
    }

    /// The storage holds as many slots as fit the backing length, and the
    /// cursor of the free list is at its head.
    pub closed spec fn cursors_wf(&self) -> bool {
        &&& self.slots@.len() == self.backing_len as int / self.capacity as int
        &&& self.free == self@.head()
    }

    /// What holds of every pool: its state is well formed, and its storage
    /// and cursors are the ones of that state.
    pub open spec fn wf(&self) -> bool {
        &&& self@.wf()
        &&& self.cursors_wf()
    }

    /// Whether `buffer` is a lease of this pool: its slot is on lease here
    /// and has this pool's capacity.
    pub open spec fn leases(&self, buffer: &Buffer) -> bool {
        self@.accepts(buffer.offset() as nat, buffer.memory())
    }

    /// Two slot offsets lie in one slot only if they are one offset.
    proof fn lemma_same_slot(&self, one: nat, other: nat)
        requires
            self.capacity > 0,
            one % self.capacity as nat == 0,
            other % self.capacity as nat == 0,
            self.index_of(one) == self.index_of(other),
        ensures
            one == other,
    {
        if one < other {
            lemma_slots_apart(self.capacity as nat, one, other);
        } else if other < one {
            lemma_slots_apart(self.capacity as nat, other, one);
        }
    }

    /// Whether this pool has the cursors and the measures of `other`, and as
    /// many slots.
    spec fn same_cursors(&self, other: &Pool) -> bool {
        &&& self.capacity == other.capacity
        &&& self.backing_len == other.backing_len
        &&& self.init == other.init
        &&& self.free == other.free
        &&& self.chain == other.chain
        &&& self.slots@.len() == other.slots@.len()
    }

    /// When one place of the storage has changed, every slot but the one at
    /// that place is as it was.
    proof fn lemma_one_slot_changed(&self, before: &Pool, data: nat)
        requires
            self.capacity > 0,
            self.capacity == before.capacity,
            data % self.capacity as nat == 0,
            0 <= self.index_of(data) < before.slots@.len(),
            self.slots@.len() == before.slots@.len(),
            forall|j: int|
                0 <= j < self.slots@.len() && j != self.index_of(data) ==> self.slots@[j]
                    == before.slots@[j],
        ensures
            forall|offset: nat|
                offset != data ==> {
                    &&& self.vacant(offset) == before.vacant(offset)
                    &&& self.in_place(offset) == before.in_place(offset)
                    &&& self.in_place(offset) ==> self.bytes_at(offset) == before.bytes_at(offset)
                },
    {
        assert forall|offset: nat| offset != data implies {
            &&& self.vacant(offset) == before.vacant(offset)
            &&& self.in_place(offset) == before.in_place(offset)
            &&& self.in_place(offset) ==> self.bytes_at(offset) == before.bytes_at(offset)
        } by {
            if offset % self.capacity as nat == 0 && self.index_of(offset) == self.index_of(data) {
                self.lemma_same_slot(offset, data);
            }
        }
    }

    /// Get the length of the backing storage.
    pub fn backing_len(&self) -> (len: usize)
        ensures
            len == self@.backing_len,
    {
        self.backing_len
    }

    /// Get the capacity of the buffers of this pool.
    pub fn buffer_capacity(&self) -> (capacity: usize)
        ensures
            capacity == self@.capacity,
    {
        self.capacity
    }

    /// Create a new pool with `backing_len` bytes of storage, carved into
    /// slots of `capacity` bytes each. Bytes behind the last whole slot are
    /// never used.
    pub fn new(backing_len: usize, capacity: usize) -> (pool: Pool)
        requires
            capacity >= word_size(),
        ensures
            pool.wf(),
            pool@ == PoolView::fresh(capacity as nat, backing_len as nat),
    {
        let count = backing_len / capacity;
        let mut slots: Vec<Option<Vec<u8>>> = Vec::new();
        let mut made: usize = 0;
        while made < count
            invariant
                made <= count,
                slots@.len() == made,
                forall|j: int|
                    0 <= j < made ==> (#[trigger] slots@[j] matches Some(bytes) && bytes@ == zeros(
                        capacity as nat,
                    )),
            decreases count - made,
        {
            let slot = vec![0x00u8; capacity];
            slots.push(Some(slot));
            made += 1;
        }
        let pool = Pool {
            slots,
            backing_len,
            capacity,
            init: 0,
            free: SENTINEL,
            chain: Ghost(Seq::empty()),
        };
        proof {
            let fresh = PoolView::fresh(capacity as nat, backing_len as nat);
            PoolView::lemma_fresh_wf(capacity as nat, backing_len as nat);
            assert(pool@.live =~= fresh.live);
            assert forall|offset: nat| pool.in_place(offset) == fresh.memory.dom().contains(
                offset,
            ) by {
                if offset % capacity as nat == 0 {
                    lemma_slot_in_storage(capacity as nat, offset, backing_len as nat);
                }
            }
            assert(pool@.memory =~= fresh.memory);
        }
        pool
    }

    /// Get a buffer. Returns `None` if there are no available buffers.
    ///
    /// A slot that was never leased goes first: the bump cursor names it and
    /// moves on by one slot. Once the cursor has reached the end of the
    /// backing storage, the head of the free list is taken, and the word in
    /// that slot names the new head.
    pub fn get(&mut self) -> (lease: Option<Buffer>)
        requires
            old(self).wf(),
        ensures
            final(self).wf(),
            final(self)@ == old(self)@.acquire(),
            match lease {
                Some(buffer) => {
                    &&& old(self)@.next_offset() == Some(buffer.offset() as nat)
                    &&& buffer.wf()
                    &&& buffer@ == Seq::<u8>::empty()
                    &&& buffer.capacity() == old(self)@.capacity
                    &&& buffer.memory() == old(self)@.memory[buffer.offset() as nat]
                    &&& !old(self)@.live.contains(buffer.offset() as nat)
                    &&& final(self).leases(&buffer)
                },
                None => old(self)@.next_offset() is None,
            },
            lease is None <==> old(self)@.live.len() == old(self)@.slot_count(),
    {
        proof {
            old(self)@.lemma_exclusive();
            old(self)@.lemma_exhaustion();
        }
        if self.backing_len - self.init >= self.capacity {
            let data = self.init;
            let slot = self.take_slot(data);
            self.init = data + self.capacity;
            proof {
                let after = old(self)@.acquire();
                assert(self@.live =~= after.live);
                assert(self@.memory =~= after.memory);
                old(self)@.lemma_acquire_wf();
            }
            Some(Buffer::new(data, slot))
        } else if self.free < self.backing_len {
            let data = self.free;
            let next = self.next(data);
            let slot = self.take_slot(data);
            self.free = next;
            proof {
                let after = old(self)@.acquire();
                self.chain@ = self.chain@.drop_first();
                assert(self@.live =~= after.live);
                assert(self@.memory =~= after.memory);
                old(self)@.lemma_acquire_wf();
            }
            Some(Buffer::new(data, slot))
        } else {
            None
        }
    }

    /// For the offset of a slot that is in its place, get the offset that
    /// its leading word spells. That is the next free slot if the slot is on
    /// the free list.
    fn next(&self, data: usize) -> (next: usize)
        requires
            self@.wf(),
            self.cursors_wf(),
            self@.memory.dom().contains(data as nat),
        ensures
            next == le_value(self@.memory[data as nat].take(word_size() as int)),
    {
        let slot = self.slots[data / self.capacity].as_ref().unwrap();
        read_word(slot.as_slice())
    }

    /// Takes the slot at offset `data` out of its place.
    fn take_slot(&mut self, data: usize) -> (slot: Vec<u8>)
        requires
            old(self)@.wf(),
            old(self).cursors_wf(),
            old(self)@.memory.dom().contains(data as nat),
        ensures
            slot@ == old(self)@.memory[data as nat],
            slot@.len() == old(self).capacity,
            final(self)@.memory == old(self)@.memory.remove(data as nat),
            final(self)@.live == old(self)@.live.insert(data as nat),
            final(self).same_cursors(old(self)),
    {
        let index = data / self.capacity;
        let mut taken: Option<Vec<u8>> = None;
        self.slots.set_and_swap(index, &mut taken);
        proof {
            self.lemma_one_slot_changed(old(self), data as nat);
        }
        taken.unwrap()
    }

    /// Puts `slot` into the place of the slot at offset `data`.
    fn put_slot(&mut self, data: usize, slot: Vec<u8>)
        requires
            old(self)@.wf(),
            old(self).cursors_wf(),
            old(self)@.live.contains(data as nat),
        ensures
            final(self)@.memory == old(self)@.memory.insert(data as nat, slot@),
            final(self)@.live == old(self)@.live.remove(data as nat),
            final(self).same_cursors(old(self)),
    {
        let index = data / self.capacity;
        let mut returned: Option<Vec<u8>> = Some(slot);
        self.slots.set_and_swap(index, &mut returned);
        proof {
            self.lemma_one_slot_changed(old(self), data as nat);
        }
    }

    /// Whether `buffer` is a lease of this pool.
    pub fn owns(&self, buffer: &Buffer) -> (owned: bool)
        requires
            self.wf(),
        ensures
            owned == self.leases(buffer),
    {
        let data = buffer.offset();
        buffer.capacity() == self.capacity && data % self.capacity == 0 && data / self.capacity
            < self.slots.len() && self.slots[data / self.capacity].is_none()
    }

    /// Ends the lease of `buffer` and puts its slot at the head of the free
    /// list: the old head is written into the leading word of the slot, and
    /// the slot becomes the new head. The next `get` that finds no fresh slot
    /// takes this one.
    ///
    /// A buffer that is no lease of this pool is handed back, and the pool
    /// stays as it is. A buffer that is dropped instead keeps its slot on
    /// lease for good.
    ///
    /// A pool knows its leases by their offset and their capacity, so hand a
    /// buffer back to the pool that it came from: a pool takes the buffer of
    /// another pool for its own if the capacities are equal and the slot at
    /// the same offset is on lease here too.
    pub fn release(&mut self, buffer: Buffer) -> (refused: Result<(), Buffer>)
        requires
            old(self).wf(),
        ensures
            final(self).wf(),
            final(self)@ == old(self)@.release(buffer.offset() as nat, buffer.memory()),
            match refused {
                Ok(_) => old(self).leases(&buffer),
                Err(returned) => !old(self).leases(&buffer) && returned == buffer,
            },
    {
        if !self.owns(&buffer) {
            return Err(buffer);
        }
        let data = buffer.offset();
        let mut slot = buffer.into_slot();
        write_word(&mut slot, self.free);
        self.put_slot(data, slot);
        self.free = data;
        proof {
            let after = old(self)@.release(data as nat, buffer.memory());
            self.chain@ = seq![data as nat] + self.chain@;
            assert(self@.live =~= after.live);
            assert(self@.memory =~= after.memory);
            old(self)@.lemma_release_wf(data as nat, buffer.memory());
        }
        Ok(())
    }
}

} // verus!
