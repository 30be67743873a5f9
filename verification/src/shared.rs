use crate::layout::Layout;
use crate::ops::{Access, ReadOp, Word, WriteOp};
use crate::outside::{pad, unpad};
use crate::port::{Entry, Port};
use core::mem::ManuallyDrop;
use core::sync::atomic::{AtomicUsize, Ordering};
use crossbeam::atomic::AtomicCell;
use crossbeam::utils::CachePadded;
use vstd::prelude::*;

verus! {

/// A place for one item, with the stamp that says whose turn it is. The item is on the heap, so that
/// the cell is one machine word for items of any size. An item that nobody reads is not dropped with
/// the ring.
#[verifier::reject_recursive_types(T)]
struct SharedSlot<T> {
    data: AtomicCell<Option<ManuallyDrop<Box<T>>>>,
    stamp: AtomicUsize,
}

/// A ring buffer that any number of threads read and write at the same time.
///
/// A thread runs an operation by handing it to `run_read` or `run_write` again and again until it is
/// done. Each step of it is one atomic access. Nothing is known in advance of a word or a cell that
/// other threads may change, so the contracts say which access is made, with which arguments, and
/// what comes of whatever it returns.
///
/// Every method works through a hand of its own. What a hand does is known to the last access: see
/// `Hand` and `port`. That a method uses no second hand, no contract on a shared ring can say.
#[verifier::reject_recursive_types(T)]
pub struct SharedRing<T> {
    buffer: Vec<SharedSlot<T>>,
    layout: Layout,
    read_idx: CachePadded<AtomicUsize>,
    write_idx: CachePadded<AtomicUsize>,
}

/// One thread's way to the memory of a ring that it shares with others, and the accesses that it made
/// there.
#[verifier::reject_recursive_types(T)]
pub struct Hand<'a, T> {
    ring: &'a SharedRing<T>,
    log: Ghost<Seq<Entry<T>>>,
}

impl<T> SharedRing<T> {
    /// How the ring encodes its indices.
    pub closed spec fn layout(&self) -> Layout {
        self.layout
    }

    /// The number of items that fit.
    pub open spec fn capacity(&self) -> nat {
        self.layout().capacity as nat
    }

    /// There is one slot for each item that fits.
    pub closed spec fn wf(&self) -> bool {
        self.layout.wf() && self.buffer@.len() == self.layout.capacity
    }

    /// The atomic word of this ring that `word` stands for.
    spec fn atomic(&self, word: Word) -> AtomicUsize {
        match word {
            Word::ReadIndex => crate::outside::padded_word(self.read_idx),
            Word::WriteIndex => crate::outside::padded_word(self.write_idx),
            Word::Stamp { slot } => self.buffer@[slot as int].stamp,
        }
    }

    /// The slot was made with a vacant cell and with `stamp`.
    spec fn slot_is_made(slot: SharedSlot<T>, stamp: int) -> bool {
        &&& call_ensures(AtomicUsize::new, (stamp as usize,), slot.stamp)
        &&& call_ensures(
            AtomicCell::<Option<ManuallyDrop<Box<T>>>>::new,
            (None::<ManuallyDrop<Box<T>>>,),
            slot.data,
        )
    }

    /// Both indices were made zero, every cell was made vacant, and every slot was stamped for the
    /// writer of the first lap.
    pub closed spec fn is_made_empty(&self) -> bool {
        &&& call_ensures(AtomicUsize::new, (0usize,), self.atomic(Word::ReadIndex))
        &&& call_ensures(AtomicUsize::new, (0usize,), self.atomic(Word::WriteIndex))
        &&& forall|i: int|
            0 <= i < self.buffer@.len() ==> Self::slot_is_made(#[trigger] self.buffer@[i], i + 1)
    }

    /// A load of the atomic word, with acquire ordering, can return `w`.
    pub closed spec fn loads(&self, word: Word, w: usize) -> bool {
        call_ensures(AtomicUsize::load, (&self.atomic(word), Ordering::Acquire), w)
    }

    /// A weak compare-and-exchange of the atomic word from `current` to `new` can succeed, where
    /// `won`, or fail, where not.
    pub closed spec fn swaps(&self, word: Word, current: usize, new: usize, won: bool) -> bool {
        exists|result: Result<usize, usize>| #[trigger]
            call_ensures(
                AtomicUsize::compare_exchange_weak,
                (&self.atomic(word), current, new, Ordering::AcqRel, Ordering::Relaxed),
                result,
            ) && won == (result is Ok)
    }

    /// The stamp of the slot was stored, with release ordering.
    pub closed spec fn stores(&self, slot: usize, stamp: usize) -> bool {
        call_ensures(
            AtomicUsize::store,
            (&self.atomic(Word::Stamp { slot }), stamp, Ordering::Release),
            (),
        )
    }

    /// The item that a cell's value stands for.
    spec fn item(kept: Option<ManuallyDrop<Box<T>>>) -> Option<T> {
        match kept {
            Some(kept) => Some(*kept@),
            None => None,
        }
    }

    /// A swap of the slot's cell that puts `value` in can return `before`.
    pub closed spec fn exchanges(&self, slot: usize, value: Option<T>, before: Option<T>) -> bool {
        exists|kept: Option<ManuallyDrop<Box<T>>>, out: Option<ManuallyDrop<Box<T>>>| #[trigger]
            call_ensures(
                AtomicCell::<Option<ManuallyDrop<Box<T>>>>::swap,
                (&self.buffer@[slot as int].data, kept),
                out,
            ) && Self::item(kept) == value && Self::item(out) == before
    }

    /// `next` is what the access that comes next in `op` makes of it.
    pub open spec fn reads_on(&self, op: ReadOp<T>, next: ReadOp<T>) -> bool {
        match op.next_access(self.layout()) {
            Access::Load { word } => exists|w: usize| #[trigger]
                self.loads(word, w) && next == if op is LoadIndex && !self.layout().is_index(
                    w as int,
                ) {
                    op
                } else {
                    op.after_load(w)
                },
            Access::Swap { word, current, new } => exists|won: bool| #[trigger]
                self.swaps(word, current, new, won) && next == ReadOp::<T>::after_claim(
                    current,
                    won,
                ),
            Access::Take { slot } => exists|before: Option<T>| #[trigger]
                self.exchanges(slot, None, before) && next == match (op, before) {
                    (ReadOp::Take { idx }, Some(value)) => ReadOp::Release { idx, value },
                    _ => op,
                },
            Access::Store { slot, stamp } => self.stores(slot, stamp) && next == match op {
                ReadOp::Release { idx, value } => ReadOp::Done(Ok(value)),
                _ => op,
            },
            _ => next == op,
        }
    }

    /// `next` is what the access that comes next in `op` makes of it.
    pub open spec fn writes_on(&self, op: WriteOp<T>, next: WriteOp<T>) -> bool {
        match op.next_access(self.layout()) {
            Access::Load { word } => exists|w: usize| #[trigger]
                self.loads(word, w) && next == if op is LoadIndex && !self.layout().is_index(
                    w as int,
                ) {
                    op
                } else {
                    op.after_load(self.layout(), w)
                },
            Access::Swap { word, current, new } => exists|won: bool| #[trigger]
                self.swaps(word, current, new, won) && next == match op {
                    WriteOp::Claim { idx, value } => WriteOp::after_claim(idx, value, won),
                    _ => op,
                },
            Access::Put { slot } => match op {
                WriteOp::Put { idx, value } => (exists|before: Option<T>| #[trigger]
                    self.exchanges(slot, Some(value), before)) && next == (WriteOp::<T>::Publish {
                    idx,
                }),
                _ => false,
            },
            Access::Store { slot, stamp } => self.stores(slot, stamp) && next
                == WriteOp::<T>::Done(Ok(())),
            _ => next == op,
        }
    }

    /// A swap of the slot's cell put `value` in, whatever it returned.
    pub open spec fn puts(&self, slot: usize, value: T) -> bool {
        exists|before: Option<T>| #[trigger] self.exchanges(slot, Some(value), before)
    }

    /// The access can have gone as `entry` says, whatever other threads did.
    pub open spec fn allows(&self, entry: Entry<T>) -> bool {
        match entry {
            Entry::Load { word, w } => self.loads(word, w),
            Entry::Swap { word, current, new, won } => self.swaps(word, current, new, won),
            Entry::Take { slot, found } => self.exchanges(slot, None, found),
            Entry::Put { slot, value } => self.puts(slot, value),
            Entry::Store { slot, stamp } => self.stores(slot, stamp),
        }
    }

    /// An access that the ring allows takes an operation on.
    pub proof fn lemma_reads_on(&self, op: ReadOp<T>, entry: Entry<T>, next: ReadOp<T>)
        requires
            self.allows(entry),
            op.goes_on(self.layout(), entry, next),
        ensures
            self.reads_on(op, next),
    {
        match entry {
            Entry::Load { word, w } => assert(self.loads(word, w)),
            Entry::Swap { word, current, new, won } => assert(self.swaps(word, current, new, won)),
            Entry::Take { slot, found } => assert(self.exchanges(slot, None, found)),
            _ => {},
        }
    }

    /// An access that the ring allows takes an operation on.
    pub proof fn lemma_writes_on(&self, op: WriteOp<T>, entry: Entry<T>, next: WriteOp<T>)
        requires
            self.allows(entry),
            op.goes_on(self.layout(), entry, next),
        ensures
            self.writes_on(op, next),
    {
        match entry {
            Entry::Load { word, w } => assert(self.loads(word, w)),
            Entry::Swap { word, current, new, won } => assert(self.swaps(word, current, new, won)),
            Entry::Put { slot, value } => {
                let before = choose|before: Option<T>| #[trigger]
                    self.exchanges(slot, Some(value), before);
                assert(self.exchanges(slot, Some(value), before));
            },
            _ => {},
        }
    }

    /// Each of `ops` is what the next access of the one before makes of it, and none but the last is
    /// over.
    pub open spec fn is_read_path(&self, ops: Seq<ReadOp<T>>) -> bool {
        forall|i: int|
            0 <= i < ops.len() - 1 ==> (#[trigger] ops[i]) !is Done && self.reads_on(
                ops[i],
                ops[i + 1],
            )
    }

    /// Each of `ops` is what the next access of the one before makes of it, and none but the last is
    /// over.
    pub open spec fn is_write_path(&self, ops: Seq<WriteOp<T>>) -> bool {
        forall|i: int|
            0 <= i < ops.len() - 1 ==> (#[trigger] ops[i]) !is Done && self.writes_on(
                ops[i],
                ops[i + 1],
            )
    }

    /// An empty ring with room for `capacity` items.
    pub fn new(capacity: usize) -> (ring: Self)
        requires
            capacity <= isize::MAX,
        ensures
            ring.wf(),
            ring.capacity() == capacity,
            ring.is_made_empty(),
    {
        let layout = Layout::new(capacity);
        let mut buffer: Vec<SharedSlot<T>> = Vec::new();
        let mut i: usize = 0;
        while i < capacity
            invariant
                i <= capacity,
                buffer@.len() == i,
                forall|j: int| 0 <= j < i ==> Self::slot_is_made(#[trigger] buffer@[j], j + 1),
            decreases capacity - i,
        {
            buffer.push(SharedSlot { data: AtomicCell::new(None), stamp: AtomicUsize::new(i + 1) });
            i = i + 1;
        }
        SharedRing {
            buffer,
            layout,
            read_idx: pad(AtomicUsize::new(0)),
            write_idx: pad(AtomicUsize::new(0)),
        }
    }

    /// A hand on the ring that has made no access yet.
    pub fn hand(&self) -> (hand: Hand<'_, T>)
        requires
            self.wf(),
        ensures
            hand.ring() == *self,
            hand.log() == Seq::<Entry<T>>::empty(),
            hand.valid(),
            hand.layout() == self.layout(),
            hand.layout().wf(),
    {
        Hand { ring: self, log: Ghost(Seq::empty()) }
    }

    /// The atomic word.
    fn word(&self, word: Word) -> (atomic: &AtomicUsize)
        requires
            self.wf(),
            word.fits(self.layout),
        ensures
            *atomic == self.atomic(word),
    {
        match word {
            Word::ReadIndex => unpad(&self.read_idx),
            Word::WriteIndex => unpad(&self.write_idx),
            Word::Stamp { slot } => &self.buffer[slot].stamp,
        }
    }

    /// Loads a word.
    fn load(&self, word: Word) -> (w: usize)
        requires
            self.wf(),
            word.fits(self.layout),
        ensures
            self.loads(word, w),
    {
        self.word(word).load(Ordering::Acquire)
    }

    /// Tries to replace a word. May fail although the word is `current`.
    fn swap(&self, word: Word, current: usize, new: usize) -> (won: bool)
        requires
            self.wf(),
            word.fits(self.layout),
        ensures
            self.swaps(word, current, new, won),
    {
        self.word(word).compare_exchange_weak(
            current,
            new,
            Ordering::AcqRel,
            Ordering::Relaxed,
        ).is_ok()
    }

    /// Stores the stamp of a slot.
    fn store(&self, slot: usize, stamp: usize)
        requires
            self.wf(),
            slot < self.layout.capacity,
        ensures
            self.stores(slot, stamp),
    {
        self.word(Word::Stamp { slot }).store(stamp, Ordering::Release)
    }

    /// Puts `value` into the cell of a slot, and returns what was there before.
    fn exchange(&self, slot: usize, value: Option<T>) -> (before: Option<T>)
        requires
            self.wf(),
            slot < self.layout.capacity,
        ensures
            self.exchanges(slot, value, before),
    {
        let kept = match value {
            Some(v) => Some(ManuallyDrop::new(Box::new(v))),
            None => None,
        };
        match self.buffer[slot].data.swap(kept) {
            Some(out) => Some(*ManuallyDrop::into_inner(out)),
            None => None,
        }
    }
}

impl<'a, T> Port<T> for Hand<'a, T> {
    closed spec fn layout(&self) -> Layout {
        self.ring.layout
    }

    closed spec fn valid(&self) -> bool {
        self.ring.wf()
    }

    open spec fn makes(&self, entry: Entry<T>, after: Self) -> bool {
        &&& after.ring() == self.ring()
        &&& after.log() == self.log().push(entry)
        &&& self.ring().allows(entry)
    }

    fn encoding(&self) -> (layout: Layout) {
        self.ring.layout
    }

    fn load_word(&mut self, word: Word) -> (w: usize) {
        let w: usize = self.ring.load(word);
        self.log = Ghost(self.log@.push(Entry::Load { word, w }));
        w
    }

    fn swap_word(&mut self, word: Word, current: usize, new: usize) -> (won: bool) {
        let won = self.ring.swap(word, current, new);
        self.log = Ghost(self.log@.push(Entry::Swap { word, current, new, won }));
        won
    }

    fn take_value(&mut self, slot: usize) -> (found: Option<T>) {
        let found = self.ring.exchange(slot, None);
        self.log = Ghost(self.log@.push(Entry::Take { slot, found }));
        found
    }

    fn put_value(&mut self, slot: usize, value: T) {
        let ghost entry = Entry::Put { slot, value };
        let before = self.ring.exchange(slot, Some(value));
        self.log = Ghost(self.log@.push(entry));
        assert(old(self).ring().exchanges(slot, Some(value), before));
        assert(old(self).ring().puts(slot, value));
    }

    fn store_stamp(&mut self, slot: usize, stamp: usize) {
        self.ring.store(slot, stamp);
        self.log = Ghost(self.log@.push(Entry::Store { slot, stamp }));
    }
}

impl<'a, T> Hand<'a, T> {
    /// The ring that the hand works on.
    pub closed spec fn ring(&self) -> SharedRing<T> {
        *self.ring
    }

    /// The accesses that the hand made, in their order.
    pub closed spec fn log(&self) -> Seq<Entry<T>> {
        self.log@
    }
}

} // verus!
