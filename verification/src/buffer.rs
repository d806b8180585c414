//! A byte buffer that lives in one slot of a pool.

use vstd::prelude::*;
use crate::content::{appended, fitting, pushed, resized, zeroed};

verus! {

/// The lease on one slot of a pool: a byte buffer of fixed capacity that is
/// read and written in place.
///
/// Only a pool makes a `Buffer`, and no `Buffer` can be copied, so whoever
/// holds one is the only one who can touch its slot.
#[derive(Debug)]
pub struct Buffer {
    /// The offset at which the slot starts in the backing storage.
    data: usize,
    /// The number of bytes that are in use.
    len: usize,
    /// The bytes of the slot, all of them.
    slot: Vec<u8>,
}

impl View for Buffer {
    type V = Seq<u8>;

    /// The content: the bytes in use, in order.
    open spec fn view(&self) -> Seq<u8> {
        self.memory().take(self.len() as int)
    }
}

impl Buffer {
    /// Every byte of the slot, whether in use or not.
    pub closed spec fn memory(&self) -> Seq<u8> {
        self.slot@
    }

    /// The number of bytes in use.
    pub closed spec fn spec_len(&self) -> usize {
        self.len
    }

    /// The number of bytes that the slot holds.
    pub closed spec fn spec_capacity(&self) -> usize {
        self.slot.len()
    }

    /// The offset at which the slot starts.
    pub closed spec fn spec_offset(&self) -> usize {
        self.data
    }

    /// What holds of every buffer: the content fits the slot.
    pub open spec fn wf(&self) -> bool {
        &&& self.len() <= self.capacity()
        &&& self.memory().len() == self.capacity()
    }

    /// Makes the empty buffer that leases the slot at offset `data`.
    pub(crate) fn new(data: usize, slot: Vec<u8>) -> (buffer: Buffer)
        ensures
            buffer.wf(),
            buffer.offset() == data,
            buffer.memory() == slot@,
            buffer.capacity() == slot@.len(),
            buffer@ == Seq::<u8>::empty(),
    {
        Buffer { data, len: 0, slot }
    }

    /// Get a reference to the slice backing the buffer.
    fn slice(&self) -> (slot: &[u8])
        ensures
            slot@ == self.memory(),
            slot@.len() == self.capacity(),
    {
        self.slot.as_slice()
    }

    /// Ends the lease and hands out the bytes of the slot.
    pub(crate) fn into_slot(self) -> (slot: Vec<u8>)
        ensures
            slot@ == self.memory(),
            slot@.len() == self.capacity(),
    {
        self.slot
    }

    /// The offset at which the slot of this buffer starts in the backing
    /// storage of its pool. No two buffers of one pool share it.
    #[verifier::when_used_as_spec(spec_offset)]
    pub fn offset(&self) -> (offset: usize)
        ensures
            offset == self.offset(),
    {
        self.data
    }

    /// Returns the capacity of the buffer.
    #[verifier::when_used_as_spec(spec_capacity)]
    pub fn capacity(&self) -> (capacity: usize)
        ensures
            capacity == self.capacity(),
            capacity == self.memory().len(),
    {
        self.slot.len()
    }

    /// Returns the length of the buffer.
    #[verifier::when_used_as_spec(spec_len)]
    pub fn len(&self) -> (len: usize)
        ensures
            len == self.len(),
    {
        self.len
    }

    /// Returns `true` if the buffer is empty, i.e. its len is 0.
    pub fn is_empty(&self) -> (empty: bool)
        ensures
            empty == (self.len() == 0),
    {
        self.len == 0
    }

    /// Returns the remaining space in the buffer.
    pub fn remaining(&self) -> (remaining: usize)
        requires
            self.wf(),
        ensures
            remaining == self.capacity() - self.len(),
    {
        self.slot.len() - self.len
    }

    /// Sets the length of the buffer without touching a byte: the bytes that
    /// come into use are whatever the slot held there.
    pub fn set_len(&mut self, len: usize)
        requires
            len <= old(self).capacity(),
            old(self).wf(),
        ensures
            final(self).wf(),
            final(self).len() == len,
            final(self).memory() == old(self).memory(),
            final(self).offset() == old(self).offset(),
            final(self).capacity() == old(self).capacity(),
    {
        self.len = len;
    }

    /// Get a reference to the content. The borrow ends before the buffer
    /// does, so the slot cannot change hands underneath it.
    pub fn static_ref(&self) -> (content: &[u8])
        requires
            self.wf(),
        ensures
            content@ == self@,
    {
        let content = &self.slice()[0..self.len];
        content
    }

    /// Get a mutable reference to the content. The borrow ends before the
    /// buffer does, so the slot cannot change hands underneath it.
    ///
    /// The bytes behind the content stay as they are, and the buffer is as
    /// long as the slice is when the borrow ends.
    pub fn static_mut(&mut self) -> (content: &mut [u8])
        requires
            old(self).wf(),
        ensures
            content@ == old(self)@,
            final(self).offset() == old(self).offset(),
            final(self).len() == old(self).len(),
            final(self).memory() == final(content)@ + old(self).memory().skip(
                old(self).len() as int,
            ),
            final(content)@.len() == content@.len() ==> final(self).wf() && final(self).capacity()
                == old(self).capacity() && final(self)@ == final(content)@,
    {
        let len = self.len;
        let (content, _rest) = self.slot.as_mut_slice().split_at_mut(len);
        content
    }

    /// Push a single byte to the end of the buffer. If this would exceed the
    /// capacity of the buffer, an error is returned containing the byte that
    /// could not be written.
    pub fn push(&mut self, byte: u8) -> (result: Result<(), u8>)
        requires
            old(self).wf(),
        ensures
            final(self).wf(),
            final(self).offset() == old(self).offset(),
            final(self).capacity() == old(self).capacity(),
            final(self)@ == pushed(old(self)@, old(self).capacity() as nat, byte),
            old(self).len() < old(self).capacity() ==> {
                &&& result == Ok::<(), u8>(())
                &&& final(self).memory() == old(self).memory().update(
                    old(self).len() as int,
                    byte,
                )
            },
            old(self).len() == old(self).capacity() ==> {
                &&& result == Err::<(), u8>(byte)
                &&& *final(self) == *old(self)
            },
    {
        if self.len < self.slot.len() {
            let len = self.len;
            self.slot.set(len, byte);
            self.len += 1;
            assert(self@ =~= old(self)@.push(byte));
            Ok(())
        } else {
            Err(byte)
        }
    }

    /// Pop the last byte from the buffer. If the buffer is empty, `None` is returned.
    pub fn pop(&mut self) -> (result: Option<u8>)
        requires
            old(self).wf(),
        ensures
            final(self).wf(),
            final(self).offset() == old(self).offset(),
            final(self).capacity() == old(self).capacity(),
            final(self).memory() == old(self).memory(),
            old(self).len() > 0 ==> {
                &&& result == Some(old(self)@.last())
                &&& final(self)@ == old(self)@.drop_last()
            },
            old(self).len() == 0 ==> {
                &&& result == None::<u8>
                &&& *final(self) == *old(self)
            },
    {
        if self.len > 0 {
            let byte = self.slot[self.len - 1];
            self.len -= 1;
            assert(self@ =~= old(self)@.drop_last());
            Some(byte)
        } else {
            None
        }
    }

    /// Sets the bytes from the end of the content up to, not including, `to`
    /// to zero and takes them into use.
    fn grow_with_zeros(&mut self, to: usize)
        requires
            old(self).wf(),
            old(self).len() <= to <= old(self).capacity(),
        ensures
            final(self).wf(),
            final(self).offset() == old(self).offset(),
            final(self).capacity() == old(self).capacity(),
            final(self).len() == to,
            final(self).memory() == zeroed(old(self).memory(), old(self).len() as int, to as int),
    {
        let mut i: usize = self.len;
        while i < to
            invariant
                self.len == old(self).len,
                self.data == old(self).data,
                self.len <= i <= to <= self.slot@.len(),
                self.slot@ == zeroed(old(self).slot@, self.len as int, i as int),
            decreases to - i,
        {
            self.slot.set(i, 0x00);
            i += 1;
            assert(self.slot@ =~= zeroed(old(self).slot@, self.len as int, i as int));
        }
        self.len = to;
    }

    /// Resize the buffer. Returns an error with the number of bytes that could not be written.
    ///
    /// A smaller size cuts the content short and touches no byte. A larger
    /// one fills the new bytes with zeros. A size beyond the capacity fills
    /// the buffer up to its capacity, and the error says how many bytes are
    /// missing.
    pub fn resize(&mut self, size: usize) -> (result: Result<(), usize>)
        requires
            old(self).wf(),
        ensures
            final(self).wf(),
            final(self).offset() == old(self).offset(),
            final(self).capacity() == old(self).capacity(),
            final(self).len() == if size <= old(self).capacity() {
                size
            } else {
                old(self).capacity()
            },
            final(self).memory() == zeroed(
                old(self).memory(),
                old(self).len() as int,
                final(self).len() as int,
            ),
            final(self)@ == resized(old(self)@, old(self).capacity() as nat, size as nat),
            size <= old(self).capacity() ==> result == Ok::<(), usize>(()),
            size > old(self).capacity() ==> result == Err::<(), usize>(
                (size - old(self).capacity()) as usize,
            ),
    {
        if size < self.len {
            self.len = size;
            assert(self.slot@ =~= zeroed(old(self).slot@, old(self).len as int, size as int));
            assert(self@ =~= resized(old(self)@, old(self).capacity() as nat, size as nat));
            Ok(())
        } else if size <= self.slot.len() {
            self.grow_with_zeros(size);
            assert(self@ =~= resized(old(self)@, old(self).capacity() as nat, size as nat));
            Ok(())
        } else {
            let capacity = self.slot.len();
            self.grow_with_zeros(capacity);
            assert(self@ =~= resized(old(self)@, old(self).capacity() as nat, size as nat));
            Err(size - capacity)
        }
    }

    /// Append the slice to the buffer. If this would exceed the capacity of the buffer,
    /// an error will be returned containing a slice of the bytes that could not be written.
    ///
    /// As many bytes as fit are written in either case.
    pub fn extend_from_slice<'a>(&mut self, other: &'a [u8]) -> (result: Result<(), &'a [u8]>)
        requires
            old(self).wf(),
        ensures
            final(self).wf(),
            final(self).offset() == old(self).offset(),
            final(self).capacity() == old(self).capacity(),
            ({
                let added = fitting(
                    old(self).capacity() as nat,
                    old(self).len() as nat,
                    other@.len(),
                );
                &&& final(self).len() == old(self).len() + added
                &&& final(self)@ == appended(old(self)@, old(self).capacity() as nat, other@)
                &&& final(self).memory() == final(self)@ + old(self).memory().skip(
                    old(self).len() + added,
                )
                &&& match result {
                    Ok(_) => added == other@.len(),
                    Err(rest) => added < other@.len() && rest@ == other@.skip(added as int),
                }
            }),
    {
        let remaining_capacity = self.remaining();
        let required_capacity = other.len();
        let added_len = if remaining_capacity < required_capacity {
            remaining_capacity
        } else {
            required_capacity
        };
        let old_len = self.len;
        let mut i: usize = 0;
        while i < added_len
            invariant
                self.len == old_len == old(self).len,
                self.data == old(self).data,
                i <= added_len <= other@.len(),
                old_len + added_len <= self.slot.len() == old(self).slot.len(),
                self.slot@ == old(self).slot@.take(old_len as int) + other@.take(i as int) + old(
                    self,
                ).slot@.skip(old_len + i),
            decreases added_len - i,
        {
            self.slot.set(old_len + i, other[i]);
            i += 1;
            assert(self.slot@ =~= old(self).slot@.take(old_len as int) + other@.take(i as int)
                + old(self).slot@.skip(old_len + i));
        }
        self.len = old_len + added_len;
        assert(self@ =~= old(self)@ + other@.take(added_len as int));
        if remaining_capacity >= required_capacity {
            Ok(())
        } else {
            Err(&other[added_len..required_capacity])
        }
    }
}

impl core::ops::Deref for Buffer {
    type Target = [u8];

    /// The content of the buffer, as a slice of bytes.
    fn deref(&self) -> (content: &[u8])
        ensures
            self.wf() ==> content@ == self@,
    {
        let slot = self.slice();
        let end = if self.len <= slot.len() {
            self.len
        } else {
            slot.len()
        };
        let content = &slot[0..end];
        content
    }
}

} // verus!
