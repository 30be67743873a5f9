use crate::layout::Layout;
use crate::memory::Memory;
use crate::ops::{Access, ReadOp, Word, WriteOp};
use core::hint::spin_loop;
use vstd::prelude::*;

verus! {

/// One access to the memory of a ring, with what it handed over and what came back.
pub enum Entry<T> {
    /// The word was loaded, and was `w`.
    Load { word: Word, w: usize },
    /// The word was to be replaced by `new`, if it was `current`. It was where `won`.
    Swap { word: Word, current: usize, new: usize, won: bool },
    /// The value of the slot was moved out, if there was one.
    Take { slot: usize, found: Option<T> },
    /// The value was moved into the slot.
    Put { slot: usize, value: T },
    /// The stamp of the slot was stored.
    Store { slot: usize, stamp: usize },
}

impl<T> Entry<T> {
    /// What came back is what a memory gives that nobody else changes.
    pub open spec fn answers(self, m: Memory<T>) -> bool {
        match self {
            Entry::Load { word, w } => w == word.value_in(m),
            Entry::Swap { word, current, new, won } => won == (word.value_in(m) == current),
            Entry::Take { slot, found } => found == m.data[slot as int],
            Entry::Put { slot, value } => true,
            Entry::Store { slot, stamp } => true,
        }
    }

    /// What the access makes of the memory. A load changes nothing; the others change one word or
    /// one cell.
    pub open spec fn effect(self, m: Memory<T>) -> Memory<T> {
        match self {
            Entry::Load { word, w } => m,
            Entry::Swap { word, current, new, won } => if won {
                word.replaced_in(m, new)
            } else {
                m
            },
            Entry::Take { slot, found } => Memory { data: m.data.update(slot as int, None), ..m },
            Entry::Put { slot, value } => Memory {
                data: m.data.update(slot as int, Some(value)),
                ..m
            },
            Entry::Store { slot, stamp } => (Word::Stamp { slot }).replaced_in(m, stamp),
        }
    }
}

/// A way to the memory of a ring.
///
/// Whoever has nothing but a port can reach the ring through its five accesses only. `makes` relates
/// a port before one access to the port after it, and nothing else is known of it: code that works
/// on any port and ends where one access leads has made this access and no other.
pub trait Port<T>: Sized {
    /// How the ring encodes its indices.
    spec fn layout(&self) -> Layout;

    /// The memory has the shape that the layout asks for.
    spec fn valid(&self) -> bool;

    /// `after` is what the access `entry`, alone, makes of this port.
    spec fn makes(&self, entry: Entry<T>, after: Self) -> bool;

    /// How the ring encodes its indices.
    fn encoding(&self) -> (layout: Layout)
        ensures
            layout == self.layout(),
    ;

    /// Loads a word.
    fn load_word(&mut self, word: Word) -> (w: usize)
        requires
            old(self).valid(),
            word.fits(old(self).layout()),
        ensures
            final(self).valid(),
            final(self).layout() == old(self).layout(),
            old(self).makes(Entry::Load { word, w }, *final(self)),
    ;

    /// Replaces a word, if it is `current`.
    fn swap_word(&mut self, word: Word, current: usize, new: usize) -> (won: bool)
        requires
            old(self).valid(),
            old(self).layout().capacity > 0,
            (Access::Swap { word, current, new }).fits(old(self).layout()),
        ensures
            final(self).valid(),
            final(self).layout() == old(self).layout(),
            old(self).makes(Entry::Swap { word, current, new, won }, *final(self)),
    ;

    /// Moves the value of a slot out.
    fn take_value(&mut self, slot: usize) -> (found: Option<T>)
        requires
            old(self).valid(),
            slot < old(self).layout().capacity,
        ensures
            final(self).valid(),
            final(self).layout() == old(self).layout(),
            old(self).makes(Entry::Take { slot, found }, *final(self)),
    ;

    /// Moves a value into a slot.
    fn put_value(&mut self, slot: usize, value: T)
        requires
            old(self).valid(),
            slot < old(self).layout().capacity,
        ensures
            final(self).valid(),
            final(self).layout() == old(self).layout(),
            old(self).makes(Entry::Put { slot, value }, *final(self)),
    ;

    /// Stores the stamp of a slot.
    fn store_stamp(&mut self, slot: usize, stamp: usize)
        requires
            old(self).valid(),
            slot < old(self).layout().capacity,
        ensures
            final(self).valid(),
            final(self).layout() == old(self).layout(),
            old(self).makes(Entry::Store { slot, stamp }, *final(self)),
    ;
}

impl<T> ReadOp<T> {
    /// `entry` is the access that comes next, and `next` is what it makes of the operation. An index
    /// that is none and a value that is missing are looked for again.
    pub open spec fn goes_on(self, layout: Layout, entry: Entry<T>, next: ReadOp<T>) -> bool {
        match (self.next_access(layout), entry) {
            (Access::Load { word }, Entry::Load { word: at, w }) => at == word && next
                == if self is LoadIndex && !layout.is_index(w as int) {
                self
            } else {
                self.after_load(w)
            },
            (
                Access::Swap { word, current, new },
                Entry::Swap { word: at, current: from, new: to, won },
            ) => at == word && from == current && to == new && next == ReadOp::<T>::after_claim(
                current,
                won,
            ),
            (Access::Take { slot }, Entry::Take { slot: at, found }) => at == slot && next
                == match (self, found) {
                (ReadOp::Take { idx }, Some(value)) => ReadOp::Release { idx, value },
                _ => self,
            },
            (Access::Store { slot, stamp }, Entry::Store { slot: at, stamp: with }) => at == slot
                && with == stamp && next == match self {
                ReadOp::Release { idx, value } => ReadOp::Done(Ok(value)),
                _ => self,
            },
            _ => false,
        }
    }
}

impl<T> WriteOp<T> {
    /// `entry` is the access that comes next, with the value that goes into the slot, and `next` is
    /// what it makes of the operation. An index that is none is looked for again.
    pub open spec fn goes_on(self, layout: Layout, entry: Entry<T>, next: WriteOp<T>) -> bool {
        match (self.next_access(layout), entry) {
            (Access::Load { word }, Entry::Load { word: at, w }) => at == word && next
                == if self is LoadIndex && !layout.is_index(w as int) {
                self
            } else {
                self.after_load(layout, w)
            },
            (
                Access::Swap { word, current, new },
                Entry::Swap { word: at, current: from, new: to, won },
            ) => at == word && from == current && to == new && next == match self {
                WriteOp::Claim { idx, value } => WriteOp::after_claim(idx, value, won),
                _ => self,
            },
            (Access::Put { slot }, Entry::Put { slot: at, value: stored }) => at == slot
                && match self {
                WriteOp::Put { idx, value } => stored == value && next == (WriteOp::<T>::Publish {
                    idx,
                }),
                _ => false,
            },
            (Access::Store { slot, stamp }, Entry::Store { slot: at, stamp: with }) => at == slot
                && with == stamp && next == WriteOp::<T>::Done(Ok(())),
            _ => false,
        }
    }
}

/// Each of `ops` is what the access beside it makes of the one before, and none but the last is over.
pub open spec fn is_read<T>(layout: Layout, ops: Seq<ReadOp<T>>, log: Seq<Entry<T>>) -> bool {
    &&& ops.len() == log.len() + 1
    &&& forall|i: int|
        0 <= i < log.len() ==> (#[trigger] ops[i]) !is Done && ops[i].goes_on(
            layout,
            log[i],
            ops[i + 1],
        )
}

/// Each of `ops` is what the access beside it makes of the one before, and none but the last is over.
pub open spec fn is_write<T>(layout: Layout, ops: Seq<WriteOp<T>>, log: Seq<Entry<T>>) -> bool {
    &&& ops.len() == log.len() + 1
    &&& forall|i: int|
        0 <= i < log.len() ==> (#[trigger] ops[i]) !is Done && ops[i].goes_on(
            layout,
            log[i],
            ops[i + 1],
        )
}

/// The accesses of `log`, in this order and no others, led from the first of `ports` to the last.
pub open spec fn leads<T, P: Port<T>>(ports: Seq<P>, log: Seq<Entry<T>>) -> bool {
    &&& ports.len() == log.len() + 1
    &&& forall|i: int| 0 <= i < log.len() ==> (#[trigger] ports[i]).makes(log[i], ports[i + 1])
}

/// The write index was loaded and was `w`, then the read index was loaded and was `r`.
pub open spec fn indices_log<T>(r: usize, w: usize) -> Seq<Entry<T>> {
    seq![
        Entry::Load { word: Word::WriteIndex, w },
        Entry::Load { word: Word::ReadIndex, w: r },
    ]
}

/// One access of a read: the one that comes next, and no other. A read that is over makes none.
pub fn step_read<T, P: Port<T>>(port: &mut P, op: ReadOp<T>) -> (next: ReadOp<T>)
    requires
        old(port).valid(),
        old(port).layout().wf(),
        old(port).layout().capacity > 0,
        op.fits(old(port).layout()),
    ensures
        final(port).valid(),
        final(port).layout() == old(port).layout(),
        op is Done ==> next == op && *final(port) == *old(port),
        op !is Done ==> exists|entry: Entry<T>| #[trigger]
            old(port).makes(entry, *final(port)) && op.goes_on(old(port).layout(), entry, next),
        next.fits(old(port).layout()),
{
    let layout = port.encoding();
    proof {
        layout.lemma_laps();
    }
    match op.access(&layout) {
        Access::Load { word } => {
            let w: usize = port.load_word(word);
            if matches!(op, ReadOp::LoadIndex) && !layout.contains(w) {
                op
            } else {
                op.loaded(&layout, w)
            }
        },
        Access::Swap { word, current, new } => op.swapped(port.swap_word(word, current, new)),
        Access::Take { slot } => match port.take_value(slot) {
            Some(value) => op.taken(value),
            None => op,
        },
        Access::Store { slot, stamp } => {
            port.store_stamp(slot, stamp);
            op.stored()
        },
        _ => op,
    }
}

/// One access of a write: the one that comes next, and no other. A write that is over makes none.
pub fn step_write<T, P: Port<T>>(port: &mut P, op: WriteOp<T>) -> (next: WriteOp<T>)
    requires
        old(port).valid(),
        old(port).layout().wf(),
        old(port).layout().capacity > 0,
        op.fits(old(port).layout()),
    ensures
        final(port).valid(),
        final(port).layout() == old(port).layout(),
        op is Done ==> next == op && *final(port) == *old(port),
        op !is Done ==> exists|entry: Entry<T>| #[trigger]
            old(port).makes(entry, *final(port)) && op.goes_on(old(port).layout(), entry, next),
        next.fits(old(port).layout()),
{
    let layout = port.encoding();
    proof {
        layout.lemma_laps();
    }
    match op.access(&layout) {
        Access::Load { word } => {
            let w: usize = port.load_word(word);
            if matches!(op, WriteOp::LoadIndex { .. }) && !layout.contains(w) {
                op
            } else {
                op.loaded(&layout, w)
            }
        },
        Access::Swap { word, current, new } => op.swapped(port.swap_word(word, current, new)),
        Access::Put { slot } => {
            let (value, next) = op.handed_over();
            if let Some(v) = value {
                port.put_value(slot, v);
            }
            next
        },
        Access::Store { slot, stamp } => {
            port.store_stamp(slot, stamp);
            op.stored()
        },
        _ => op,
    }
}

/// Runs a read on, for `steps` accesses or until it is over. A read that starts over tells the
/// processor that it is waiting.
pub fn run_read<T, P: Port<T>>(port: &mut P, op: ReadOp<T>, steps: usize) -> (end: ReadOp<T>)
    requires
        old(port).valid(),
        old(port).layout().wf(),
        old(port).layout().capacity > 0,
        op.fits(old(port).layout()),
    ensures
        final(port).valid(),
        final(port).layout() == old(port).layout(),
        exists|ports: Seq<P>, ops: Seq<ReadOp<T>>, log: Seq<Entry<T>>|
            #![trigger leads(ports, log), is_read(old(port).layout(), ops, log)]
            leads(ports, log) && is_read(old(port).layout(), ops, log) && ports.first()
                == *old(port) && ports.last() == *final(port) && ops.first() == op && ops.last()
                == end && log.len() <= steps && (end is Done || log.len() == steps),
        end.fits(old(port).layout()),
{
    let ghost layout = port.layout();
    let ghost start = *port;
    let mut end = op;
    let mut done: usize = 0;
    let ghost mut ports: Seq<P> = seq![*port];
    let ghost mut ops: Seq<ReadOp<T>> = seq![op];
    let ghost mut log: Seq<Entry<T>> = Seq::empty();
    while done < steps && !matches!(end, ReadOp::Done(_))
        invariant
            port.valid(),
            port.layout() == layout,
            layout.wf(),
            layout.capacity > 0,
            end.fits(layout),
            done <= steps,
            log.len() == done,
            leads(ports, log),
            is_read(layout, ops, log),
            ports.first() == start,
            ports.last() == *port,
            ops.first() == op,
            ops.last() == end,
        decreases steps - done,
    {
        let ghost before = *port;
        let ghost was = end;
        end = step_read(port, end);
        done = done + 1;
        if matches!(end, ReadOp::LoadIndex) {
            spin_loop();
        }
        proof {
            let entry = choose|entry: Entry<T>| #[trigger]
                before.makes(entry, *port) && was.goes_on(layout, entry, end);
            ports = ports.push(*port);
            ops = ops.push(end);
            log = log.push(entry);
        }
    }
    end
}

/// Runs a write on, for `steps` accesses or until it is over. A write that starts over tells the
/// processor that it is waiting.
pub fn run_write<T, P: Port<T>>(port: &mut P, op: WriteOp<T>, steps: usize) -> (end: WriteOp<T>)
    requires
        old(port).valid(),
        old(port).layout().wf(),
        old(port).layout().capacity > 0,
        op.fits(old(port).layout()),
    ensures
        final(port).valid(),
        final(port).layout() == old(port).layout(),
        exists|ports: Seq<P>, ops: Seq<WriteOp<T>>, log: Seq<Entry<T>>|
            #![trigger leads(ports, log), is_write(old(port).layout(), ops, log)]
            leads(ports, log) && is_write(old(port).layout(), ops, log) && ports.first()
                == *old(port) && ports.last() == *final(port) && ops.first() == op && ops.last()
                == end && log.len() <= steps && (end is Done || log.len() == steps),
        end.fits(old(port).layout()),
{
    let ghost layout = port.layout();
    let ghost start = *port;
    let mut end = op;
    let mut done: usize = 0;
    let ghost mut ports: Seq<P> = seq![*port];
    let ghost mut ops: Seq<WriteOp<T>> = seq![op];
    let ghost mut log: Seq<Entry<T>> = Seq::empty();
    while done < steps && !matches!(end, WriteOp::Done(_))
        invariant
            port.valid(),
            port.layout() == layout,
            layout.wf(),
            layout.capacity > 0,
            end.fits(layout),
            done <= steps,
            log.len() == done,
            leads(ports, log),
            is_write(layout, ops, log),
            ports.first() == start,
            ports.last() == *port,
            ops.first() == op,
            ops.last() == end,
        decreases steps - done,
    {
        let ghost before = *port;
        let ghost was = end;
        end = step_write(port, end);
        done = done + 1;
        if matches!(end, WriteOp::LoadIndex { .. }) {
            spin_loop();
        }
        proof {
            let entry = choose|entry: Entry<T>| #[trigger]
                before.makes(entry, *port) && was.goes_on(layout, entry, end);
            ports = ports.push(*port);
            ops = ops.push(end);
            log = log.push(entry);
        }
    }
    end
}

/// Loads the write index and then the read index, and nothing else.
pub fn load_indices<T, P: Port<T>>(port: &mut P) -> (indices: (usize, usize))
    requires
        old(port).valid(),
    ensures
        final(port).valid(),
        final(port).layout() == old(port).layout(),
        exists|mid: P| #[trigger]
            old(port).makes(Entry::Load { word: Word::WriteIndex, w: indices.1 }, mid)
                && #[trigger] mid.makes(
                Entry::Load { word: Word::ReadIndex, w: indices.0 },
                *final(port),
            ),
{
    let w: usize = port.load_word(Word::WriteIndex);
    let r: usize = port.load_word(Word::ReadIndex);
    (r, w)
}

} // verus!
