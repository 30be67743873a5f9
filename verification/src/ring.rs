use crate::error::RingBufferError;
use crate::layout::Layout;
use crate::memory::Memory;
use crate::ops::{ReadOp, Word, WriteOp};
use crate::port::{step_read, step_write, Entry, Port};
use crate::quiet::{
    lemma_read_alone, lemma_read_goes_on, lemma_write_alone, lemma_write_goes_on, read_alone,
    read_rank, write_alone, write_rank,
};
use core::mem::ManuallyDrop;
use vstd::prelude::*;

verus! {

/// A place for one item, with the stamp that says whose turn it is. An item that nobody reads is
/// not dropped with the ring.
#[derive(Debug)]
struct Slot<T> {
    data: Option<ManuallyDrop<T>>,
    stamp: usize,
}

impl<T> Slot<T> {
    /// The item in the slot.
    spec fn item(self) -> Option<T> {
        match self.data {
            Some(kept) => Some(kept@),
            None => None,
        }
    }
}

/// A ring buffer with a fixed and unchangeable number of slots.
///
/// The owner of the buffer reads and writes it alone: an operation runs all its accesses without
/// another one in between.
#[derive(Debug)]
pub struct RingBuffer<T> {
    buffer: Vec<Slot<T>>,
    layout: Layout,
    read_idx: usize,
    write_idx: usize,
}

/// What a read of a ring with the items `before` returns, and the items that it leaves.
pub open spec fn reads<T>(
    before: Seq<T>,
    result: Result<T, RingBufferError>,
    after: Seq<T>,
) -> bool {
    if before.len() > 0 {
        result == Ok::<T, RingBufferError>(before[0]) && after == before.drop_first()
    } else {
        result == Err::<T, RingBufferError>(RingBufferError::Empty) && after == before
    }
}

/// What a write of `v` to a ring with the items `before` returns, and the items that it leaves.
pub open spec fn writes<T>(
    capacity: nat,
    before: Seq<T>,
    v: T,
    result: Result<(), RingBufferError>,
    after: Seq<T>,
) -> bool {
    if before.len() < capacity {
        result == Ok::<(), RingBufferError>(()) && after == before.push(v)
    } else {
        result == Err::<(), RingBufferError>(RingBufferError::Full) && after == before
    }
}

impl<T> View for RingBuffer<T> {
    type V = Seq<T>;

    /// The stored items, oldest first.
    closed spec fn view(&self) -> Seq<T> {
        self.memory().contents(self.layout)
    }
}

impl<T> RingBuffer<T> {
    /// The number of items that fit.
    pub open spec fn capacity(&self) -> nat {
        self.layout().capacity as nat
    }

    /// How the ring encodes its indices.
    pub closed spec fn layout(&self) -> Layout {
        self.layout
    }

    /// The words and cells that operations access.
    pub closed spec fn memory(&self) -> Memory<T> {
        Memory {
            read_idx: self.read_idx,
            write_idx: self.write_idx,
            stamps: Seq::new(self.buffer@.len(), |i: int| self.buffer@[i].stamp),
            data: Seq::new(self.buffer@.len(), |i: int| self.buffer@[i].item()),
        }
    }

    /// The memory has the layout's shape. Operations may be under way.
    pub open spec fn in_shape(&self) -> bool {
        self.layout().wf() && self.memory().fits(self.layout())
    }

    /// The ring is well formed and no operation is under way.
    pub open spec fn wf(&self) -> bool {
        self.in_shape() && self.memory().at_rest(self.layout())
    }

    /// The items are those that the memory holds between its two indices.
    pub proof fn lemma_view(self)
        ensures
            self@ == self.memory().contents(self.layout()),
    {
    }

    /// An empty ring with room for `capacity` items.
    pub fn new(capacity: usize) -> (rb: Self)
        requires
            capacity <= isize::MAX,
        ensures
            rb.wf(),
            rb.capacity() == capacity,
            rb@ == Seq::<T>::empty(),
            rb.memory() == Memory::<T>::initial(rb.layout()),
    {
        let layout = Layout::new(capacity);
        proof {
            layout.lemma_laps();
        }
        let mut buffer: Vec<Slot<T>> = Vec::new();
        let mut i: usize = 0;
        while i < capacity
            invariant
                i <= capacity,
                buffer@.len() == i,
                forall|j: int| 0 <= j < i ==> (#[trigger] buffer@[j]).stamp == j + 1,
                forall|j: int| 0 <= j < i ==> (#[trigger] buffer@[j]).data is None,
            decreases capacity - i,
        {
            buffer.push(Slot { data: None, stamp: i + 1 });
            i = i + 1;
        }
        let rb = RingBuffer { buffer, layout, read_idx: 0, write_idx: 0 };
        assert(rb.memory() =~= Memory::<T>::initial(layout));
        proof {
            Memory::<T>::lemma_initial(layout);
        }
        rb
    }

    /// Loads a word.
    fn load(&self, word: Word) -> (w: usize)
        requires
            self.in_shape(),
            word.fits(self.layout),
        ensures
            w == word.value_in(self.memory()),
    {
        match word {
            Word::ReadIndex => self.read_idx,
            Word::WriteIndex => self.write_idx,
            Word::Stamp { slot } => self.buffer[slot].stamp,
        }
    }

    /// Stores a word.
    fn store(&mut self, word: Word, w: usize)
        requires
            old(self).in_shape(),
            word.fits(old(self).layout),
        ensures
            final(self).layout == old(self).layout,
            final(self).memory() == word.replaced_in(old(self).memory(), w),
    {
        match word {
            Word::ReadIndex => {
                self.read_idx = w;
            },
            Word::WriteIndex => {
                self.write_idx = w;
            },
            Word::Stamp { slot } => {
                self.buffer[slot].stamp = w;
            },
        }
    }

    /// One access of a read. Between the accesses of one read the owner may run those of others.
    pub fn step_read(&mut self, op: ReadOp<T>) -> (next: ReadOp<T>)
        requires
            old(self).in_shape(),
            old(self).capacity() > 0,
            op.fits(old(self).layout()),
            op.ready(old(self).layout(), old(self).memory()),
        ensures
            (final(self).memory(), next) == op.step(old(self).layout(), old(self).memory()),
            final(self).layout() == old(self).layout(),
            final(self).in_shape(),
            next.fits(final(self).layout()),
    {
        let ghost start = *self;
        let next = step_read(self, op);
        proof {
            if op !is Done {
                let entry = choose|entry: Entry<T>| #[trigger]
                    start.makes(entry, *self) && op.goes_on(start.layout, entry, next);
                lemma_read_goes_on(start.layout, start.memory(), op, entry, next);
            }
        }
        next
    }

    /// One access of a write. Between the accesses of one write the owner may run those of others.
    pub fn step_write(&mut self, op: WriteOp<T>) -> (next: WriteOp<T>)
        requires
            old(self).in_shape(),
            old(self).capacity() > 0,
            op.fits(old(self).layout()),
        ensures
            (final(self).memory(), next) == op.step(old(self).layout(), old(self).memory()),
            final(self).layout() == old(self).layout(),
            final(self).in_shape(),
            next.fits(final(self).layout()),
    {
        let ghost start = *self;
        let next = step_write(self, op);
        proof {
            if op !is Done {
                let entry = choose|entry: Entry<T>| #[trigger]
                    start.makes(entry, *self) && op.goes_on(start.layout, entry, next);
                lemma_write_goes_on(start.layout, start.memory(), op, entry, next);
            }
        }
        next
    }

    /// Whether the two indices stand for a full ring: at rest, whether every slot holds an item. A
    /// ring without slots is never full.
    pub fn is_full(&self) -> (b: bool)
        requires
            self.in_shape(),
        ensures
            b == self.layout().stands_for_full(self.memory().read_idx, self.memory().write_idx),
            self.wf() ==> b == (self@.len() == self.capacity() && self.capacity() > 0),
    {
        proof {
            let r = self.layout.position(self.read_idx as int);
            let n = self.memory().count(self.layout);
            if self.layout.capacity > 0 && self.wf() {
                self.layout.lemma_laps();
                self.layout.lemma_ticket(r);
                self.layout.lemma_ticket(r + n);
                if n == self.layout.capacity {
                    self.layout.lemma_next_lap(r);
                } else if self.layout.ticket_slot(r) == self.layout.ticket_slot(r + n) {
                    self.layout.lemma_same_slot(r, r + n);
                }
            }
        }
        self.layout.full(self.read_idx, self.write_idx)
    }

    /// Whether the two indices stand for an empty ring: at rest, whether no slot holds an item.
    pub fn is_empty(&self) -> (b: bool)
        requires
            self.in_shape(),
        ensures
            b == (self.memory().write_idx == self.memory().read_idx),
            self.wf() ==> b == (self@.len() == 0),
    {
        self.layout.empty(self.read_idx, self.write_idx)
    }

    /// Takes out the oldest item, or reports `Empty` and changes nothing.
    pub fn read(&mut self) -> (result: Result<T, RingBufferError>)
        requires
            old(self).wf(),
            old(self).capacity() > 0,
        ensures
            final(self).wf(),
            final(self).layout() == old(self).layout(),
            reads(old(self)@, result, final(self)@),
            result is Err ==> final(self).memory() == old(self).memory(),
    {
        let ghost m = self.memory();
        let ghost layout = self.layout;
        let mut op: ReadOp<T> = ReadOp::LoadIndex;
        loop
            invariant
                self.in_shape(),
                self.layout == layout,
                layout == old(self).layout,
                layout.capacity > 0,
                m == old(self).memory(),
                m.at_rest(layout),
                read_alone(layout, m, self.memory(), op),
            decreases read_rank(op),
        {
            proof {
                lemma_read_alone(layout, m, self.memory(), op);
            }
            match op {
                ReadOp::Done(result) => {
                    return result;
                },
                _ => {
                    op = self.step_read(op);
                },
            }
        }
    }

    /// Stores `v` as the newest item, or reports `Full` and changes nothing.
    pub fn write(&mut self, v: T) -> (result: Result<(), RingBufferError>)
        requires
            old(self).wf(),
            old(self).capacity() > 0,
        ensures
            final(self).wf(),
            final(self).layout() == old(self).layout(),
            writes(old(self).capacity(), old(self)@, v, result, final(self)@),
            result is Err ==> final(self).memory() == old(self).memory(),
    {
        let ghost m = self.memory();
        let ghost layout = self.layout;
        let mut op: WriteOp<T> = WriteOp::LoadIndex { value: v };
        loop
            invariant
                self.in_shape(),
                self.layout == layout,
                layout == old(self).layout,
                layout.capacity > 0,
                m == old(self).memory(),
                m.at_rest(layout),
                write_alone(layout, m, v, self.memory(), op),
            decreases write_rank(op),
        {
            proof {
                lemma_write_alone(layout, m, v, self.memory(), op);
            }
            match op {
                WriteOp::Done(result) => {
                    return result;
                },
                _ => {
                    op = self.step_write(op);
                },
            }
        }
    }
}

/// The owner of a ring is alone with its memory: what an access finds is what is there, and what it
/// leaves is the memory with the access made.
impl<T> Port<T> for RingBuffer<T> {
    open spec fn layout(&self) -> Layout {
        self.layout()
    }

    open spec fn valid(&self) -> bool {
        self.in_shape()
    }

    open spec fn makes(&self, entry: Entry<T>, after: Self) -> bool {
        entry.answers(self.memory()) && after.memory() == entry.effect(self.memory())
    }

    fn encoding(&self) -> (layout: Layout) {
        self.layout
    }

    fn load_word(&mut self, word: Word) -> (w: usize) {
        self.load(word)
    }

    fn swap_word(&mut self, word: Word, current: usize, new: usize) -> (won: bool) {
        let won = self.load(word) == current;
        if won {
            self.store(word, new);
        }
        won
    }

    fn take_value(&mut self, slot: usize) -> (found: Option<T>) {
        let found = match self.buffer[slot].data.take() {
            Some(kept) => Some(ManuallyDrop::into_inner(kept)),
            None => None,
        };
        assert(self.memory() =~= (Entry::Take { slot, found }).effect(old(self).memory()));
        found
    }

    fn put_value(&mut self, slot: usize, value: T) {
        self.buffer[slot].data = Some(ManuallyDrop::new(value));
        assert(self.memory() =~= (Entry::Put { slot, value }).effect(old(self).memory()));
    }

    fn store_stamp(&mut self, slot: usize, stamp: usize) {
        self.store(Word::Stamp { slot }, stamp);
    }
}

/// The ring for machine words with room for twenty, as one function that is not generic.
pub fn __instantiate_ringbuffer_usize() -> (rb: RingBuffer<usize>)
    ensures
        rb.wf(),
        rb.capacity() == 20,
        rb@ == Seq::<usize>::empty(),
{
    RingBuffer::new(20)
}

} // verus!
