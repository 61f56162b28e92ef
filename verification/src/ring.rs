//! A bounded first-in, first-out buffer: the ring itself, and a reader
//! and a writer that share one ring.

use std::marker::PhantomData;
use std::sync::Arc;
use vstd::prelude::*;
use vstd::rwlock::RwLock;

verus! {

/// The error of writing to a full buffer.
#[derive(Debug, Clone, Copy, PartialEq, Eq, Structural)]
pub struct BufferFull;

/// A ring of ten slots. The items wait in the slots from `index` on,
/// wrapping round at the end.
pub struct BufferHead<T> where T: Copy + Default {
    len: usize,
    index: usize,
    capacity: usize,
    data: [T; 10],
}

impl<T: Copy + Default> View for BufferHead<T> {
    type V = Seq<T>;

    /// The items that wait in the ring, oldest first.
    closed spec fn view(&self) -> Seq<T> {
        Seq::new(self.len as nat, |i: int| self.data@[slot(self.index as int, i,
            self.capacity as int)])
    }
}

/// The slot in which the item `i` places after the one at `index`
/// stands.
pub open spec fn slot(index: int, i: int, capacity: int) -> int {
    (index + i) % capacity
}

impl<T: Copy + Default> BufferHead<T> {
    /// The ring has ten slots, holds no more items than slots, and its
    /// first item stands in one of them.
    pub closed spec fn wf(&self) -> bool {
        &&& self.capacity == 10
        &&& self.len <= self.capacity
        &&& self.index < self.capacity
    }

    /// How many items a ring holds at most.
    pub open spec fn spec_capacity() -> nat {
        10
    }

    /// A well-formed ring holds no more items than it has slots.
    pub proof fn lemma_bounded(&self)
        requires
            self.wf(),
        ensures
            self@.len() <= Self::spec_capacity(),
    {
    }

    /// An empty ring.
    pub fn default() -> (r: Self)
        ensures
            r.wf(),
            r@ == Seq::<T>::empty(),
    {
        let r = Self { len: 0, index: 0, capacity: 10, data: [T::default();10] };
        assert(r@ =~= Seq::<T>::empty());
        r
    }

    /// Takes every item out of the ring, oldest first.
    pub fn read_data(&mut self) -> (data: Vec<T>)
        requires
            old(self).wf(),
        ensures
            final(self).wf(),
            data@ == old(self)@,
            final(self)@ == Seq::<T>::empty(),
    {
        let mut data = Vec::new();
        let mut index: usize = 0;
        while index < self.len
            invariant
                *self == *old(self),
                self.wf(),
                index <= self.len,
                data@ == self@.take(index as int),
            decreases self.len - index,
        {
            let pos = (index + self.index) % self.capacity;
            data.push(self.data[pos]);
            assert(data@ =~= self@.take(index + 1));
            index += 1;
        }
        assert(data@ =~= self@);
        self.index = 0;
        self.len = 0;
        assert(self@ =~= Seq::<T>::empty());
        data
    }

    /// Puts an item into the ring, unless the ring is full.
    pub fn write_data(&mut self, data: T) -> (r: Result<(), BufferFull>)
        requires
            old(self).wf(),
        ensures
            final(self).wf(),
            r is Ok <==> old(self)@.len() < Self::spec_capacity(),
            r is Ok ==> final(self)@ == old(self)@.push(data),
            r is Err ==> final(self)@ == old(self)@,
    {
        if self.len != self.capacity {
            let pos = (self.index + self.len) % self.capacity;
            self.data[pos] = data;
            self.len += 1;
            proof {
                assert forall|i: int| 0 <= i < old(self).len implies #[trigger] slot(
                    old(self).index as int,
                    i,
                    10,
                ) != pos by {
                    assert(i != old(self).len);
                }
                assert(self@ =~= old(self)@.push(data));
            }
            Ok(())
        } else {
            Err(BufferFull)
        }
    }
}

/// Marks the reading end of a buffer.
pub struct BReader {}

/// Marks the writing end of a buffer.
pub struct BWriter {}

/// The two ends of a buffer.
pub trait BufferMode {

}

impl BufferMode for BReader {

}

impl BufferMode for BWriter {

}

/// One end of a shared ring. The ring is behind a lock, which only a
/// well-formed ring can enter or leave.
#[verifier::reject_recursive_types(T)]
pub struct CircularBuffer<T, Mode: BufferMode> where T: Copy + Default {
    head: Arc<RwLock<BufferHead<T>, spec_fn(BufferHead<T>) -> bool>>,
    mode: PhantomData<Mode>,
}

impl<T: Copy + Default, Mode: BufferMode> CircularBuffer<T, Mode> {
    /// The lock admits exactly the well-formed rings.
    pub closed spec fn wf(&self) -> bool {
        forall|h: BufferHead<T>| #[trigger] self.head.inv(h) <==> h.wf()
    }
}

/// A new ring and its two ends.
pub fn new_buffer<T>() -> (ends: (CircularBuffer<T, BReader>, CircularBuffer<T, BWriter>)) where
    T: Copy + Default,

    ensures
        ends.0.wf(),
        ends.1.wf(),
{
    let ghost pred = |h: BufferHead<T>| h.wf();
    let head = Arc::new(RwLock::new(BufferHead::default(), Ghost(pred)));
    (CircularBuffer::<T, BReader>::new(head.clone()), CircularBuffer::<T, BWriter>::new(head))
}

impl<T> CircularBuffer<T, BReader> where T: Copy + Default {
    fn new(head: Arc<RwLock<BufferHead<T>, spec_fn(BufferHead<T>) -> bool>>) -> (r: Self)
        ensures
            r.head == head,
    {
        Self { head, mode: PhantomData::<BReader> }
    }

    /// Takes every item that waits in the ring, oldest first. What
    /// waits there is for the writer to decide; there are never more
    /// items than the ring has slots.
    pub fn read_data(&mut self) -> (r: Option<Vec<T>>)
        requires
            old(self).wf(),
        ensures
            final(self).wf(),
            r matches Some(data) && data@.len() <= BufferHead::<T>::spec_capacity(),
    {
        let (mut head, handle) = self.head.acquire_write();
        let ghost before = head;
        let data = head.read_data();
        proof {
            before.lemma_bounded();
        }
        handle.release_write(head);
        Some(data)
    }
}

impl<T> CircularBuffer<T, BWriter> where T: Copy + Default {
    fn new(head: Arc<RwLock<BufferHead<T>, spec_fn(BufferHead<T>) -> bool>>) -> (r: Self)
        ensures
            r.head == head,
    {
        Self { head, mode: PhantomData::<BWriter> }
    }

    /// Puts an item into the ring, unless the ring is full at that
    /// moment.
    pub fn write_data(&mut self, data: T) -> (r: Result<(), BufferFull>)
        requires
            old(self).wf(),
        ensures
            final(self).wf(),
    {
        let (mut head, handle) = self.head.acquire_write();
        let r = head.write_data(data);
        handle.release_write(head);
        r
    }
}

/// The header of a ring that is kept in a file: how many records wait,
/// in which slot the oldest stands, and how many slots there are. The
/// records follow the header, slot by slot.
#[derive(Debug, Clone, Copy, PartialEq, Eq, Structural)]
pub struct RingHeader {
    pub len: u32,
    pub index: u32,
    pub capacity: u32,
}

/// The slots from which `len` records are read, beginning at `index`.
pub open spec fn slots_read(index: int, capacity: int, len: int) -> Seq<u32>
    decreases len,
{
    if len <= 0 {
        Seq::empty()
    } else {
        seq![(index % capacity) as u32] + slots_read((index + 1) % capacity, capacity, len - 1)
    }
}

impl RingHeader {
    /// The header of an empty ring of ten slots.
    pub fn default() -> (r: Self)
        ensures
            r == (RingHeader { len: 0, index: 0, capacity: 10 }),
    {
        Self { len: 0, index: 0, capacity: 10 }
    }

    /// Where the next record is written and the header after it, or
    /// nothing if the ring is full.
    pub fn write_slot(&self) -> (r: Option<(u32, RingHeader)>)
        requires
            self.capacity > 0,
            self.index + self.len <= u32::MAX,
            self.len != self.capacity ==> self.len < u32::MAX,
        ensures
            r == if self.len != self.capacity {
                Some(
                    (
                        ((self.index + self.len) % (self.capacity as int)) as u32,
                        RingHeader { len: (self.len + 1) as u32, index: self.index,
                            capacity: self.capacity },
                    ),
                )
            } else {
                None
            },
    {
        if self.len != self.capacity {
            let slot = (self.index + self.len) % self.capacity;
            Some((slot, RingHeader { len: self.len + 1, index: self.index,
                capacity: self.capacity }))
        } else {
            None
        }
    }

    /// The slots from which the waiting records are read, oldest first.
    pub fn read_slots(&self) -> (r: Vec<u32>)
        requires
            self.capacity > 0,
            self.len > 0 ==> self.index < u32::MAX,
        ensures
            r@ == slots_read(self.index as int, self.capacity as int, self.len as int),
    {
        let mut out: Vec<u32> = Vec::new();
        let mut index = self.index;
        let mut left = self.len;
        while left > 0
            invariant
                self.capacity > 0,
                left > 0 ==> index < u32::MAX,
                slots_read(self.index as int, self.capacity as int, self.len as int) == out@
                    + slots_read(
                    index as int,
                    self.capacity as int,
                    left as int,
                ),
            decreases left,
        {
            let ghost before = out@;
            let slot = index % self.capacity;
            out.push(slot);
            proof {
                let rest = slots_read((index + 1) % (self.capacity as int), self.capacity as int,
                    left - 1);
                assert(before + (seq![slot] + rest) =~= out@ + rest);
            }
            index = (index + 1) % self.capacity;
            left -= 1;
        }
        out
    }

    /// Where the record in `slot` begins in the file, the header taking
    /// `header_size` bytes and each record `record_size`.
    pub fn offset(slot: u32, record_size: usize, header_size: usize) -> (r: usize)
        requires
            slot * record_size + header_size <= usize::MAX,
        ensures
            r == slot * record_size + header_size,
    {
        assert(slot * record_size <= usize::MAX) by (nonlinear_arith)
            requires
                slot * record_size + header_size <= usize::MAX,
                header_size >= 0,
        ;
        slot as usize * record_size + header_size
    }
}

} // verus!
