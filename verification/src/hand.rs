use crate::memory::Memory;
use crate::ops::{ReadOp, Word, WriteOp};
use crate::port::{
    indices_log, is_read, is_write, leads, load_indices, run_read, run_write, step_read,
    step_write, Entry, Port,
};
use crate::quiet::{
    law_indices_alone_tell_full_and_empty, law_read_alone_takes_the_oldest,
    law_write_alone_appends, memory_after, reads_alone, tells_empty_alone, tells_full_alone,
    undisturbed, writes_alone,
};
use crate::ring::{reads, writes};
use crate::shared::{Hand, SharedRing};
use vstd::prelude::*;

verus! {

impl<'a, T> Hand<'a, T> {
    /// What a hand made one after the other is what its log grew by.
    pub proof fn lemma_leads(hands: Seq<Hand<'a, T>>, log: Seq<Entry<T>>)
        requires
            leads(hands, log),
        ensures
            hands.last().ring() == hands.first().ring(),
            hands.last().log() == hands.first().log() + log,
            forall|i: int| 0 <= i < log.len() ==> hands.first().ring().allows(#[trigger] log[i]),
        decreases log.len(),
    {
        if log.len() > 0 {
            let n = log.len() - 1;
            assert(leads(hands.drop_last(), log.drop_last())) by {
                assert forall|i: int| 0 <= i < n implies (#[trigger] hands.drop_last()[i]).makes(
                    log.drop_last()[i],
                    hands.drop_last()[i + 1],
                ) by {
                    assert(hands[i].makes(log[i], hands[i + 1]));
                }
            }
            Self::lemma_leads(hands.drop_last(), log.drop_last());
            assert(hands[n].makes(log[n], hands[n + 1]));
            assert(hands.last().log() =~= hands.first().log() + log);
            assert forall|i: int| 0 <= i < log.len() implies hands.first().ring().allows(
                #[trigger] log[i],
            ) by {
                if i < n {
                    assert(log.drop_last()[i] == log[i]);
                }
            }
        } else {
            assert(hands.last().log() =~= hands.first().log() + log);
        }
    }

    /// One access of a read. The hand makes the access that comes next in `op`, and no other; where the
    /// read is over, it makes none.
    pub fn step_read(&mut self, op: ReadOp<T>) -> (next: ReadOp<T>)
        requires
            old(self).valid(),
            old(self).layout().wf(),
            old(self).layout().capacity > 0,
            op.fits(old(self).layout()),
        ensures
            final(self).valid(),
            final(self).layout() == old(self).layout(),
            final(self).ring() == old(self).ring(),
            op is Done ==> next == op && final(self).log() == old(self).log(),
            op !is Done ==> exists|entry: Entry<T>| #[trigger]
                old(self).ring().allows(entry) && final(self).log() == old(self).log().push(entry)
                    && op.goes_on(old(self).layout(), entry, next),
            next.fits(old(self).layout()),
    {
        step_read(self, op)
    }

    /// One access of a write. The hand makes the access that comes next in `op`, and no other; where the
    /// write is over, it makes none.
    pub fn step_write(&mut self, op: WriteOp<T>) -> (next: WriteOp<T>)
        requires
            old(self).valid(),
            old(self).layout().wf(),
            old(self).layout().capacity > 0,
            op.fits(old(self).layout()),
        ensures
            final(self).valid(),
            final(self).layout() == old(self).layout(),
            final(self).ring() == old(self).ring(),
            op is Done ==> next == op && final(self).log() == old(self).log(),
            op !is Done ==> exists|entry: Entry<T>| #[trigger]
                old(self).ring().allows(entry) && final(self).log() == old(self).log().push(entry)
                    && op.goes_on(old(self).layout(), entry, next),
            next.fits(old(self).layout()),
    {
        step_write(self, op)
    }

    /// Runs a read on, for `steps` accesses or until it is over. The hand makes the accesses of the
    /// read, one after the other, and no others.
    pub fn run_read(&mut self, op: ReadOp<T>, steps: usize) -> (end: ReadOp<T>)
        requires
            old(self).valid(),
            old(self).layout().wf(),
            old(self).layout().capacity > 0,
            op.fits(old(self).layout()),
        ensures
            final(self).valid(),
            final(self).layout() == old(self).layout(),
            final(self).ring() == old(self).ring(),
            exists|ops: Seq<ReadOp<T>>, log: Seq<Entry<T>>| #[trigger]
                is_read(old(self).layout(), ops, log) && ops.first() == op && ops.last() == end
                    && log.len() <= steps && (end is Done || log.len() == steps)
                    && final(self).log() == old(self).log() + log
                    && (op is LoadIndex ==> reads_alone(old(self).layout(), log, end)) && forall|i: int|
                    0 <= i < log.len() ==> old(self).ring().allows(#[trigger] log[i]),
            end.fits(old(self).layout()),
    {
        let ghost layout = self.layout();
        let ghost start = *self;
        let end = run_read(self, op, steps);
        proof {
            let (hands, ops, log) = choose|
                hands: Seq<Hand<'a, T>>,
                ops: Seq<ReadOp<T>>,
                log: Seq<Entry<T>>,
            |
                #![trigger leads(hands, log), is_read(layout, ops, log)]
                leads(hands, log) && is_read(layout, ops, log) && hands.first() == start
                    && hands.last() == *self && ops.first() == op && ops.last() == end
                    && log.len() <= steps && (end is Done || log.len() == steps);
            Self::lemma_leads(hands, log);
            if op is LoadIndex {
                assert forall|m: Memory<T>|
                    m.at_rest(layout) && #[trigger] undisturbed(m, log) implies {
                    &&& log.len() >= 5 ==> end is Done
                    &&& end matches ReadOp::Done(result) ==> memory_after(m, log).at_rest(layout)
                        && reads(
                        m.contents(layout),
                        result,
                        memory_after(m, log).contents(layout),
                    )
                } by {
                    law_read_alone_takes_the_oldest(layout, m, ops, log);
                }
            }
        }
        end
    }

    /// Runs a write on, for `steps` accesses or until it is over. The hand makes the accesses of the
    /// write, one after the other, and no others.
    pub fn run_write(&mut self, op: WriteOp<T>, steps: usize) -> (end: WriteOp<T>)
        requires
            old(self).valid(),
            old(self).layout().wf(),
            old(self).layout().capacity > 0,
            op.fits(old(self).layout()),
        ensures
            final(self).valid(),
            final(self).layout() == old(self).layout(),
            final(self).ring() == old(self).ring(),
            exists|ops: Seq<WriteOp<T>>, log: Seq<Entry<T>>| #[trigger]
                is_write(old(self).layout(), ops, log) && ops.first() == op && ops.last() == end
                    && log.len() <= steps && (end is Done || log.len() == steps)
                    && final(self).log() == old(self).log() + log
                    && (op matches WriteOp::LoadIndex { value } ==> writes_alone(old(self).layout(), value, log, end)) && forall|i: int|
                    0 <= i < log.len() ==> old(self).ring().allows(#[trigger] log[i]),
            end.fits(old(self).layout()),
    {
        let ghost layout = self.layout();
        let ghost start = *self;
        let end = run_write(self, op, steps);
        proof {
            let (hands, ops, log) = choose|
                hands: Seq<Hand<'a, T>>,
                ops: Seq<WriteOp<T>>,
                log: Seq<Entry<T>>,
            |
                #![trigger leads(hands, log), is_write(layout, ops, log)]
                leads(hands, log) && is_write(layout, ops, log) && hands.first() == start
                    && hands.last() == *self && ops.first() == op && ops.last() == end
                    && log.len() <= steps && (end is Done || log.len() == steps);
            Self::lemma_leads(hands, log);
            if op is LoadIndex {
                let value = op->LoadIndex_value;
                assert forall|m: Memory<T>|
                    m.at_rest(layout) && #[trigger] undisturbed(m, log) implies {
                    &&& log.len() >= 5 ==> end is Done
                    &&& end matches WriteOp::Done(result) ==> memory_after(m, log).at_rest(layout)
                        && writes(
                        layout.capacity as nat,
                        m.contents(layout),
                        value,
                        result,
                        memory_after(m, log).contents(layout),
                    )
                } by {
                    law_write_alone_appends(layout, m, value, ops, log);
                }
            }
        }
        end
    }

    /// Whether the two indices stand for a full ring. The hand loads the write index and then the
    /// read index, and makes no other access.
    pub fn is_full(&mut self) -> (b: bool)
        requires
            old(self).valid(),
            old(self).layout().wf(),
        ensures
            final(self).valid(),
            final(self).layout() == old(self).layout(),
            final(self).ring() == old(self).ring(),
            exists|r: usize, w: usize| #[trigger]
                old(self).ring().loads(Word::ReadIndex, r) && #[trigger] old(self).ring().loads(
                    Word::WriteIndex,
                    w,
                ) && final(self).log() == old(self).log() + indices_log(r, w) && b
                    == old(self).layout().stands_for_full(r, w) && tells_full_alone(
                    old(self).layout(),
                    indices_log::<T>(r, w),
                    b,
                ),
    {
        let layout = self.encoding();
        let (r, w) = load_indices(self);
        proof {
            assert(self.log() =~= old(self).log() + indices_log(r, w));
            assert forall|m: Memory<T>|
                m.at_rest(layout) && #[trigger] undisturbed(m, indices_log(r, w)) implies
                memory_after(m, indices_log(r, w)) == m && layout.stands_for_full(r, w) == (
                m.contents(layout).len() == layout.capacity && layout.capacity > 0) by {
                law_indices_alone_tell_full_and_empty(layout, m, r, w);
            }
        }
        layout.full(r, w)
    }

    /// Whether the two indices stand for an empty ring. The hand loads the write index and then the
    /// read index, and makes no other access.
    pub fn is_empty(&mut self) -> (b: bool)
        requires
            old(self).valid(),
            old(self).layout().wf(),
        ensures
            final(self).valid(),
            final(self).layout() == old(self).layout(),
            final(self).ring() == old(self).ring(),
            exists|r: usize, w: usize| #[trigger]
                old(self).ring().loads(Word::ReadIndex, r) && #[trigger] old(self).ring().loads(
                    Word::WriteIndex,
                    w,
                ) && final(self).log() == old(self).log() + indices_log(r, w) && b == (w == r)
                    && tells_empty_alone(old(self).layout(), indices_log::<T>(r, w), b),
    {
        let layout = self.encoding();
        let (r, w) = load_indices(self);
        proof {
            assert(self.log() =~= old(self).log() + indices_log(r, w));
            assert forall|m: Memory<T>|
                m.at_rest(layout) && #[trigger] undisturbed(m, indices_log(r, w)) implies
                memory_after(m, indices_log(r, w)) == m && (w == r) == (m.contents(
                    layout,
                ).len() == 0) by {
                law_indices_alone_tell_full_and_empty(layout, m, r, w);
            }
        }
        layout.empty(r, w)
    }
}

impl<T> SharedRing<T> {
    /// Whether the two indices, loaded one after the other, stand for a full ring, as
    /// `Layout::full` says. Other threads may move both between the loads.
    pub fn is_full(&self) -> (b: bool)
        requires
            self.wf(),
        ensures
            exists|r: usize, w: usize| #[trigger]
                self.loads(Word::ReadIndex, r) && #[trigger] self.loads(Word::WriteIndex, w) && b
                    == self.layout().stands_for_full(r, w) && tells_full_alone(
                    self.layout(),
                    indices_log::<T>(r, w),
                    b,
                ),
    {
        self.hand().is_full()
    }

    /// Whether the two indices, loaded one after the other, stand for an empty ring, as
    /// `Layout::empty` says. Other threads may move both between the loads.
    pub fn is_empty(&self) -> (b: bool)
        requires
            self.wf(),
        ensures
            exists|r: usize, w: usize| #[trigger]
                self.loads(Word::ReadIndex, r) && #[trigger] self.loads(Word::WriteIndex, w) && b
                    == (w == r) && tells_empty_alone(self.layout(), indices_log::<T>(r, w), b),
    {
        self.hand().is_empty()
    }

    /// One access of a read. What it finds is up to the other threads; what it does with it is
    /// not. An index that is none and a value that is missing are looked for again.
    pub fn step_read(&self, op: ReadOp<T>) -> (next: ReadOp<T>)
        requires
            self.wf(),
            self.capacity() > 0,
            op.fits(self.layout()),
        ensures
            self.reads_on(op, next),
            op.can_become(self.layout(), next),
            next.fits(self.layout()),
    {
        let next = self.hand().step_read(op);
        proof {
            if op !is Done {
                let entry = choose|entry: Entry<T>| #[trigger]
                    self.allows(entry) && op.goes_on(self.layout(), entry, next);
                self.lemma_reads_on(op, entry, next);
            }
        }
        next
    }

    /// One access of a write. What it finds is up to the other threads; what it does with it is
    /// not. An index that is none is looked for again.
    pub fn step_write(&self, op: WriteOp<T>) -> (next: WriteOp<T>)
        requires
            self.wf(),
            self.capacity() > 0,
            op.fits(self.layout()),
        ensures
            self.writes_on(op, next),
            op.can_become(self.layout(), next),
            next.fits(self.layout()),
    {
        let next = self.hand().step_write(op);
        proof {
            if op !is Done {
                let entry = choose|entry: Entry<T>| #[trigger]
                    self.allows(entry) && op.goes_on(self.layout(), entry, next);
                self.lemma_writes_on(op, entry, next);
            }
        }
        next
    }

    /// Runs a read on, for `steps` accesses or until it is over. A read that starts over tells the
    /// processor that it is waiting.
    pub fn run_read(&self, op: ReadOp<T>, steps: usize) -> (end: ReadOp<T>)
        requires
            self.wf(),
            self.capacity() > 0,
            op.fits(self.layout()),
        ensures
            exists|ops: Seq<ReadOp<T>>| #[trigger]
                self.is_read_path(ops) && 0 < ops.len() <= steps + 1 && ops.first() == op
                    && ops.last() == end && (end is Done || ops.len() == steps + 1),
            exists|ops: Seq<ReadOp<T>>, log: Seq<Entry<T>>| #[trigger]
                is_read(self.layout(), ops, log) && ops.first() == op && ops.last() == end
                    && log.len() <= steps && (end is Done || log.len() == steps)
                    && (op is LoadIndex ==> reads_alone(self.layout(), log, end)) && forall|i: int|
                    0 <= i < log.len() ==> self.allows(#[trigger] log[i]),
            end.fits(self.layout()),
    {
        let end = self.hand().run_read(op, steps);
        proof {
            let (ops, log) = choose|ops: Seq<ReadOp<T>>, log: Seq<Entry<T>>| #[trigger]
                is_read(self.layout(), ops, log) && ops.first() == op && ops.last() == end
                    && log.len() <= steps && (end is Done || log.len() == steps) && forall|i: int|
                    0 <= i < log.len() ==> self.allows(#[trigger] log[i]);
            assert forall|i: int| 0 <= i < ops.len() - 1 implies (#[trigger] ops[i]) !is Done
                && self.reads_on(ops[i], ops[i + 1]) by {
                self.lemma_reads_on(ops[i], log[i], ops[i + 1]);
            }
            assert(self.is_read_path(ops));
        }
        end
    }

    /// Runs a write on, for `steps` accesses or until it is over. A write that starts over tells the
    /// processor that it is waiting.
    pub fn run_write(&self, op: WriteOp<T>, steps: usize) -> (end: WriteOp<T>)
        requires
            self.wf(),
            self.capacity() > 0,
            op.fits(self.layout()),
        ensures
            exists|ops: Seq<WriteOp<T>>| #[trigger]
                self.is_write_path(ops) && 0 < ops.len() <= steps + 1 && ops.first() == op
                    && ops.last() == end && (end is Done || ops.len() == steps + 1),
            exists|ops: Seq<WriteOp<T>>, log: Seq<Entry<T>>| #[trigger]
                is_write(self.layout(), ops, log) && ops.first() == op && ops.last() == end
                    && log.len() <= steps && (end is Done || log.len() == steps)
                    && (op matches WriteOp::LoadIndex { value } ==> writes_alone(self.layout(), value, log, end)) && forall|i: int|
                    0 <= i < log.len() ==> self.allows(#[trigger] log[i]),
            end.fits(self.layout()),
    {
        let end = self.hand().run_write(op, steps);
        proof {
            let (ops, log) = choose|ops: Seq<WriteOp<T>>, log: Seq<Entry<T>>| #[trigger]
                is_write(self.layout(), ops, log) && ops.first() == op && ops.last() == end
                    && log.len() <= steps && (end is Done || log.len() == steps) && forall|i: int|
                    0 <= i < log.len() ==> self.allows(#[trigger] log[i]);
            assert forall|i: int| 0 <= i < ops.len() - 1 implies (#[trigger] ops[i]) !is Done
                && self.writes_on(ops[i], ops[i + 1]) by {
                self.lemma_writes_on(ops[i], log[i], ops[i + 1]);
            }
            assert(self.is_write_path(ops));
        }
        end
    }
}

} // verus!
