use crate::error::RingBufferError;
use crate::layout::Layout;
use crate::memory::Memory;
use vstd::prelude::*;

verus! {

/// A word of the shared memory.
#[derive(Clone, Copy, Debug, PartialEq, Eq, Structural)]
pub enum Word {
    ReadIndex,
    WriteIndex,
    Stamp { slot: usize },
}

/// One access to the shared memory, with all that it hands over but the value of a write.
#[derive(Clone, Copy, Debug, PartialEq, Eq, Structural)]
pub enum Access {
    /// Load a word.
    Load { word: Word },
    /// Replace a word by `new`, if it is `current`.
    Swap { word: Word, current: usize, new: usize },
    /// Move the value of a slot out.
    Take { slot: usize },
    /// Move a value into a slot.
    Put { slot: usize },
    /// Store the stamp of a slot.
    Store { slot: usize, stamp: usize },
    /// The operation is over.
    Nothing,
}

impl Word {
    /// The word exists in a ring with this layout.
    pub open spec fn fits(self, layout: Layout) -> bool {
        self matches Word::Stamp { slot } ==> slot < layout.capacity
    }

    /// The word's value in a memory.
    pub open spec fn value_in<T>(self, m: Memory<T>) -> usize {
        match self {
            Word::ReadIndex => m.read_idx,
            Word::WriteIndex => m.write_idx,
            Word::Stamp { slot } => m.stamps[slot as int],
        }
    }

    /// The memory with `w` for the word's value.
    pub open spec fn replaced_in<T>(self, m: Memory<T>, w: usize) -> Memory<T> {
        match self {
            Word::ReadIndex => Memory { read_idx: w, ..m },
            Word::WriteIndex => Memory { write_idx: w, ..m },
            Word::Stamp { slot } => Memory { stamps: m.stamps.update(slot as int, w), ..m },
        }
    }
}

impl Access {
    /// What is accessed exists in a ring with this layout, and an index stays an index.
    pub open spec fn fits(self, layout: Layout) -> bool {
        match self {
            Access::Load { word } => word.fits(layout),
            Access::Swap { word, current, new } => word.fits(layout) && layout.is_index(new as int),
            Access::Take { slot } => slot < layout.capacity,
            Access::Put { slot } => slot < layout.capacity,
            Access::Store { slot, stamp } => slot < layout.capacity,
            Access::Nothing => true,
        }
    }
}

/// A read under way. Each variant but the last names the one access to the shared memory that
/// comes next; a thread may be interrupted by others between any two of them.
#[derive(Debug)]
pub enum ReadOp<T> {
    /// Load the read index.
    LoadIndex,
    /// Load the stamp of the slot of `idx`.
    LoadStamp { idx: usize },
    /// The slot holds nothing for this reader: load the write index to learn why.
    LoadWriteIndex { idx: usize },
    /// The slot is filled: move the read index on, if it still is `idx`.
    Claim { idx: usize },
    /// The slot belongs to this reader: move the value out.
    Take { idx: usize },
    /// Stamp the slot for the writer of the next lap.
    Release { idx: usize, value: T },
    /// The read is over.
    Done(Result<T, RingBufferError>),
}

/// A write under way, with the value that it has not stored yet.
#[derive(Debug)]
pub enum WriteOp<T> {
    /// Load the write index.
    LoadIndex { value: T },
    /// Load the stamp of the slot of `idx`.
    LoadStamp { idx: usize, value: T },
    /// The slot is not vacant for this writer: load the read index to learn why.
    LoadReadIndex { idx: usize, value: T },
    /// The slot is vacant: move the write index on, if it still is `idx`.
    Claim { idx: usize, value: T },
    /// The slot belongs to this writer: move the value in.
    Put { idx: usize, value: T },
    /// Stamp the slot for the reader of this lap.
    Publish { idx: usize },
    /// The write is over.
    Done(Result<(), RingBufferError>),
}

impl<T> ReadOp<T> {
    /// The index that the operation works on, if it has one, belongs to the layout.
    pub open spec fn fits(self, layout: Layout) -> bool {
        match self {
            ReadOp::LoadIndex => true,
            ReadOp::LoadStamp { idx } => layout.is_index(idx as int),
            ReadOp::LoadWriteIndex { idx } => layout.is_index(idx as int),
            ReadOp::Claim { idx } => layout.is_index(idx as int),
            ReadOp::Take { idx } => layout.is_index(idx as int),
            ReadOp::Release { idx, value } => layout.is_index(idx as int),
            ReadOp::Done(r) => true,
        }
    }

    /// Where the operation is after the stamp of the slot of `idx` was `stamp`.
    pub open spec fn after_stamp(idx: usize, stamp: usize) -> ReadOp<T> {
        if stamp == idx {
            ReadOp::Claim { idx }
        } else {
            ReadOp::LoadWriteIndex { idx }
        }
    }

    /// Where the operation is after the write index was `write_idx`.
    pub open spec fn after_write_index(idx: usize, write_idx: usize) -> ReadOp<T> {
        if write_idx == idx {
            ReadOp::Done(Err(RingBufferError::Empty))
        } else {
            ReadOp::LoadIndex
        }
    }

    /// Where the operation is after it tried to move the read index on.
    pub open spec fn after_claim(idx: usize, won: bool) -> ReadOp<T> {
        if won {
            ReadOp::Take { idx }
        } else {
            ReadOp::LoadIndex
        }
    }

    /// The operation finds what it needs: the value that it is about to take is there.
    pub open spec fn ready(self, layout: Layout, m: Memory<T>) -> bool {
        self matches ReadOp::Take { idx } ==> m.data[layout.slot_of(idx as int)] is Some
    }

    /// One access: the memory and the operation after it.
    pub open spec fn step(self, layout: Layout, m: Memory<T>) -> (Memory<T>, ReadOp<T>) {
        match self {
            ReadOp::LoadIndex => (m, ReadOp::LoadStamp { idx: m.read_idx }),
            ReadOp::LoadStamp { idx } => (
                m,
                ReadOp::after_stamp(idx, m.stamps[layout.slot_of(idx as int)]),
            ),
            ReadOp::LoadWriteIndex { idx } => (m, ReadOp::after_write_index(idx, m.write_idx)),
            ReadOp::Claim { idx } => if m.read_idx == idx {
                (
                    Memory { read_idx: layout.next_index(idx as int) as usize, ..m },
                    ReadOp::after_claim(idx, true),
                )
            } else {
                (m, ReadOp::after_claim(idx, false))
            },
            ReadOp::Take { idx } => (
                Memory { data: m.data.update(layout.slot_of(idx as int), None), ..m },
                ReadOp::Release { idx, value: m.data[layout.slot_of(idx as int)]->0 },
            ),
            ReadOp::Release { idx, value } => (
                Memory {
                    stamps: m.stamps.update(
                        layout.slot_of(idx as int),
                        (layout.one_lap_on(idx as int) + 1) as usize,
                    ),
                    ..m
                },
                ReadOp::Done(Ok(value)),
            ),
            ReadOp::Done(r) => (m, ReadOp::Done(r)),
        }
    }

    /// What one access can make of the operation, whatever it finds in memory that other threads
    /// change too. An operation that finds no index, or no value yet, stays where it is.
    pub open spec fn can_become(self, layout: Layout, next: ReadOp<T>) -> bool {
        match self {
            ReadOp::LoadIndex => next == self || (next matches ReadOp::LoadStamp { idx }
                && layout.is_index(idx as int)),
            ReadOp::LoadStamp { idx } => next == (ReadOp::<T>::Claim { idx })
                || next == (ReadOp::<T>::LoadWriteIndex { idx }),
            ReadOp::LoadWriteIndex { idx } => next == ReadOp::<T>::LoadIndex || next
                == ReadOp::<T>::Done(Err(RingBufferError::Empty)),
            ReadOp::Claim { idx } => next == (ReadOp::<T>::Take { idx }) || next
                == ReadOp::<T>::LoadIndex,
            ReadOp::Take { idx } => next == self || (next matches ReadOp::Release {
                idx: next_idx,
                value,
            } && next_idx == idx),
            ReadOp::Release { idx, value } => next == ReadOp::<T>::Done(Ok(value)),
            ReadOp::Done(r) => next == self,
        }
    }

    /// The access that comes next.
    pub open spec fn next_access(self, layout: Layout) -> Access {
        match self {
            ReadOp::LoadIndex => Access::Load { word: Word::ReadIndex },
            ReadOp::LoadStamp { idx } => Access::Load {
                word: Word::Stamp { slot: layout.slot_of(idx as int) as usize },
            },
            ReadOp::LoadWriteIndex { idx } => Access::Load { word: Word::WriteIndex },
            ReadOp::Claim { idx } => Access::Swap {
                word: Word::ReadIndex,
                current: idx,
                new: layout.next_index(idx as int) as usize,
            },
            ReadOp::Take { idx } => Access::Take { slot: layout.slot_of(idx as int) as usize },
            ReadOp::Release { idx, value } => Access::Store {
                slot: layout.slot_of(idx as int) as usize,
                stamp: (layout.one_lap_on(idx as int) + 1) as usize,
            },
            ReadOp::Done(r) => Access::Nothing,
        }
    }

    /// Where the operation is after it loaded `word`.
    pub open spec fn after_load(self, word: usize) -> ReadOp<T> {
        match self {
            ReadOp::LoadIndex => ReadOp::LoadStamp { idx: word },
            ReadOp::LoadStamp { idx } => ReadOp::after_stamp(idx, word),
            ReadOp::LoadWriteIndex { idx } => ReadOp::after_write_index(idx, word),
            _ => self,
        }
    }

    /// The access that comes next.
    pub fn access(&self, layout: &Layout) -> (access: Access)
        requires
            layout.wf(),
            self.fits(*layout),
        ensures
            access == self.next_access(*layout),
            access.fits(*layout),
    {
        match self {
            ReadOp::LoadIndex => Access::Load { word: Word::ReadIndex },
            ReadOp::LoadStamp { idx } => {
                let slot: usize = layout.slot(*idx);
                Access::Load { word: Word::Stamp { slot } }
            },
            ReadOp::LoadWriteIndex { idx } => Access::Load { word: Word::WriteIndex },
            ReadOp::Claim { idx } => {
                let new: usize = layout.advance(*idx);
                Access::Swap { word: Word::ReadIndex, current: *idx, new }
            },
            ReadOp::Take { idx } => {
                let slot: usize = layout.slot(*idx);
                Access::Take { slot }
            },
            ReadOp::Release { idx, value } => {
                let slot: usize = layout.slot(*idx);
                let stamp: usize = layout.freed_stamp(*idx);
                Access::Store { slot, stamp }
            },
            ReadOp::Done(r) => Access::Nothing,
        }
    }

    /// A loaded word decides. A stamp: the slot is filled, or the reader has to look further. A
    /// write index: the ring is empty, or a writer is still storing its value and the reader
    /// starts over.
    pub fn loaded(self, layout: &Layout, word: usize) -> (next: ReadOp<T>)
        ensures
            next == self.after_load(word),
    {
        match self {
            ReadOp::LoadIndex => ReadOp::LoadStamp { idx: word },
            ReadOp::LoadStamp { idx } => if word != idx {
                ReadOp::LoadWriteIndex { idx }
            } else {
                ReadOp::Claim { idx }
            },
            ReadOp::LoadWriteIndex { idx } => if layout.empty(idx, word) {
                ReadOp::Done(Err(RingBufferError::Empty))
            } else {
                ReadOp::LoadIndex
            },
            other => other,
        }
    }

    /// The slot is this reader's, or the claim was lost and the reader starts over.
    pub fn swapped(self, won: bool) -> (next: ReadOp<T>)
        ensures
            next == match self {
                ReadOp::Claim { idx } => Self::after_claim(idx, won),
                _ => self,
            },
    {
        match self {
            ReadOp::Claim { idx } => if won {
                ReadOp::Take { idx }
            } else {
                ReadOp::LoadIndex
            },
            other => other,
        }
    }

    /// The value is this reader's.
    pub fn taken(self, value: T) -> (next: ReadOp<T>)
        ensures
            next == match self {
                ReadOp::Take { idx } => ReadOp::Release { idx, value },
                _ => self,
            },
    {
        match self {
            ReadOp::Take { idx } => ReadOp::Release { idx, value },
            other => other,
        }
    }

    /// The slot is free again, and the read is over.
    pub fn stored(self) -> (next: ReadOp<T>)
        ensures
            next == match self {
                ReadOp::Release { idx, value } => ReadOp::Done(Ok(value)),
                _ => self,
            },
    {
        match self {
            ReadOp::Release { idx, value } => ReadOp::Done(Ok(value)),
            other => other,
        }
    }
}

impl<T> WriteOp<T> {
    /// The index that the operation works on, if it has one, belongs to the layout.
    pub open spec fn fits(self, layout: Layout) -> bool {
        match self {
            WriteOp::LoadIndex { value } => true,
            WriteOp::LoadStamp { idx, value } => layout.is_index(idx as int),
            WriteOp::LoadReadIndex { idx, value } => layout.is_index(idx as int),
            WriteOp::Claim { idx, value } => layout.is_index(idx as int),
            WriteOp::Put { idx, value } => layout.is_index(idx as int),
            WriteOp::Publish { idx } => layout.is_index(idx as int),
            WriteOp::Done(r) => true,
        }
    }

    /// Where the operation is after the stamp of the slot of `idx` was `stamp`.
    pub open spec fn after_stamp(idx: usize, value: T, stamp: usize) -> WriteOp<T> {
        if stamp == idx + 1 {
            WriteOp::Claim { idx, value }
        } else {
            WriteOp::LoadReadIndex { idx, value }
        }
    }

    /// Where the operation is after the read index was `read_idx`.
    pub open spec fn after_read_index(
        layout: Layout,
        idx: usize,
        value: T,
        read_idx: usize,
    ) -> WriteOp<T> {
        if layout.stands_for_full(read_idx, idx) {
            WriteOp::Done(Err(RingBufferError::Full))
        } else {
            WriteOp::LoadIndex { value }
        }
    }

    /// Where the operation is after it tried to move the write index on.
    pub open spec fn after_claim(idx: usize, value: T, won: bool) -> WriteOp<T> {
        if won {
            WriteOp::Put { idx, value }
        } else {
            WriteOp::LoadIndex { value }
        }
    }

    /// One access: the memory and the operation after it.
    pub open spec fn step(self, layout: Layout, m: Memory<T>) -> (Memory<T>, WriteOp<T>) {
        match self {
            WriteOp::LoadIndex { value } => (m, WriteOp::LoadStamp { idx: m.write_idx, value }),
            WriteOp::LoadStamp { idx, value } => (
                m,
                WriteOp::after_stamp(idx, value, m.stamps[layout.slot_of(idx as int)]),
            ),
            WriteOp::LoadReadIndex { idx, value } => (
                m,
                WriteOp::after_read_index(layout, idx, value, m.read_idx),
            ),
            WriteOp::Claim { idx, value } => if m.write_idx == idx {
                (
                    Memory { write_idx: layout.next_index(idx as int) as usize, ..m },
                    WriteOp::after_claim(idx, value, true),
                )
            } else {
                (m, WriteOp::after_claim(idx, value, false))
            },
            WriteOp::Put { idx, value } => (
                Memory { data: m.data.update(layout.slot_of(idx as int), Some(value)), ..m },
                WriteOp::Publish { idx },
            ),
            WriteOp::Publish { idx } => (
                Memory { stamps: m.stamps.update(layout.slot_of(idx as int), idx), ..m },
                WriteOp::Done(Ok(())),
            ),
            WriteOp::Done(r) => (m, WriteOp::Done(r)),
        }
    }

    /// What one access can make of the operation, whatever it finds in memory that other threads
    /// change too. An operation that finds no index stays where it is.
    pub open spec fn can_become(self, layout: Layout, next: WriteOp<T>) -> bool {
        match self {
            WriteOp::LoadIndex { value } => next == self || (next matches WriteOp::LoadStamp {
                idx,
                value: kept,
            } && layout.is_index(idx as int) && kept == value),
            WriteOp::LoadStamp { idx, value } => next == (WriteOp::<T>::Claim { idx, value })
                || next == (WriteOp::<T>::LoadReadIndex { idx, value }),
            WriteOp::LoadReadIndex { idx, value } => next == (WriteOp::<T>::LoadIndex { value })
                || next == WriteOp::<T>::Done(Err(RingBufferError::Full)),
            WriteOp::Claim { idx, value } => next == (WriteOp::<T>::Put { idx, value }) || next
                == (WriteOp::<T>::LoadIndex { value }),
            WriteOp::Put { idx, value } => next == (WriteOp::<T>::Publish { idx }),
            WriteOp::Publish { idx } => next == WriteOp::<T>::Done(Ok(())),
            WriteOp::Done(r) => next == self,
        }
    }

    /// The access that comes next.
    pub open spec fn next_access(self, layout: Layout) -> Access {
        match self {
            WriteOp::LoadIndex { value } => Access::Load { word: Word::WriteIndex },
            WriteOp::LoadStamp { idx, value } => Access::Load {
                word: Word::Stamp { slot: layout.slot_of(idx as int) as usize },
            },
            WriteOp::LoadReadIndex { idx, value } => Access::Load { word: Word::ReadIndex },
            WriteOp::Claim { idx, value } => Access::Swap {
                word: Word::WriteIndex,
                current: idx,
                new: layout.next_index(idx as int) as usize,
            },
            WriteOp::Put { idx, value } => Access::Put { slot: layout.slot_of(idx as int) as usize },
            WriteOp::Publish { idx } => Access::Store {
                slot: layout.slot_of(idx as int) as usize,
                stamp: idx,
            },
            WriteOp::Done(r) => Access::Nothing,
        }
    }

    /// Where the operation is after it loaded `word`.
    pub open spec fn after_load(self, layout: Layout, word: usize) -> WriteOp<T> {
        match self {
            WriteOp::LoadIndex { value } => WriteOp::LoadStamp { idx: word, value },
            WriteOp::LoadStamp { idx, value } => WriteOp::after_stamp(idx, value, word),
            WriteOp::LoadReadIndex { idx, value } => WriteOp::after_read_index(
                layout,
                idx,
                value,
                word,
            ),
            _ => self,
        }
    }

    /// The access that comes next.
    pub fn access(&self, layout: &Layout) -> (access: Access)
        requires
            layout.wf(),
            self.fits(*layout),
        ensures
            access == self.next_access(*layout),
            access.fits(*layout),
    {
        match self {
            WriteOp::LoadIndex { value } => Access::Load { word: Word::WriteIndex },
            WriteOp::LoadStamp { idx, value } => {
                let slot: usize = layout.slot(*idx);
                Access::Load { word: Word::Stamp { slot } }
            },
            WriteOp::LoadReadIndex { idx, value } => Access::Load { word: Word::ReadIndex },
            WriteOp::Claim { idx, value } => {
                let new: usize = layout.advance(*idx);
                Access::Swap { word: Word::WriteIndex, current: *idx, new }
            },
            WriteOp::Put { idx, value } => {
                let slot: usize = layout.slot(*idx);
                Access::Put { slot }
            },
            WriteOp::Publish { idx } => {
                let slot: usize = layout.slot(*idx);
                Access::Store { slot, stamp: *idx }
            },
            WriteOp::Done(r) => Access::Nothing,
        }
    }

    /// A loaded word decides. A stamp: the slot is vacant, or the writer has to look further. A
    /// read index: the ring is full, or a reader is still moving its value out and the writer
    /// starts over.
    pub fn loaded(self, layout: &Layout, word: usize) -> (next: WriteOp<T>)
        requires
            layout.wf(),
            self.fits(*layout),
        ensures
            next == self.after_load(*layout, word),
    {
        match self {
            WriteOp::LoadIndex { value } => WriteOp::LoadStamp { idx: word, value },
            WriteOp::LoadStamp { idx, value } => {
                proof {
                    layout.lemma_index(idx as int);
                }
                if word != idx + 1 {
                    WriteOp::LoadReadIndex { idx, value }
                } else {
                    WriteOp::Claim { idx, value }
                }
            },
            WriteOp::LoadReadIndex { idx, value } => if layout.full(word, idx) {
                WriteOp::Done(Err(RingBufferError::Full))
            } else {
                WriteOp::LoadIndex { value }
            },
            other => other,
        }
    }

    /// The slot is this writer's, or the claim was lost and the writer starts over.
    pub fn swapped(self, won: bool) -> (next: WriteOp<T>)
        ensures
            next == match self {
                WriteOp::Claim { idx, value } => Self::after_claim(idx, value, won),
                _ => self,
            },
    {
        match self {
            WriteOp::Claim { idx, value } => if won {
                WriteOp::Put { idx, value }
            } else {
                WriteOp::LoadIndex { value }
            },
            other => other,
        }
    }

    /// The value that goes into the slot, and the operation without it.
    pub fn handed_over(self) -> (parts: (Option<T>, WriteOp<T>))
        ensures
            parts == match self {
                WriteOp::Put { idx, value } => (Some(value), WriteOp::Publish { idx }),
                _ => (None, self),
            },
    {
        match self {
            WriteOp::Put { idx, value } => (Some(value), WriteOp::Publish { idx }),
            other => (None, other),
        }
    }

    /// The slot is filled for its reader, and the write is over.
    pub fn stored(self) -> (next: WriteOp<T>)
        ensures
            next == match self {
                WriteOp::Publish { idx } => WriteOp::Done(Ok(())),
                _ => self,
            },
    {
        match self {
            WriteOp::Publish { idx } => WriteOp::Done(Ok(())),
            other => other,
        }
    }
}

} // verus!
