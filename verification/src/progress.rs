use crate::error::RingBufferError;
use crate::ops::{ReadOp, WriteOp};
use crate::protocol::{Event, Machine};
use vstd::prelude::*;

verus! {

impl<T> Machine<T> {
    /// The writer of every item in the ring has stamped its slot.
    pub open spec fn writes_are_settled(self) -> bool {
        forall|t: int|
            self.next_read() <= t < self.next_write()
                ==> self.writers[#[trigger] self.written_by[t]].op is Done
    }

    /// The reader of every slot that no writer has claimed since has stamped it.
    pub open spec fn reads_are_settled(self) -> bool {
        forall|t: int|
            0 <= t < self.next_read() && self.next_write() <= t + self.layout.capacity
                ==> self.readers[#[trigger] self.read_by[t]].op is Done
    }

    /// Reader `id` does `n` accesses, one after the other.
    pub open spec fn steps_read(self, id: nat, n: nat) -> Machine<T>
        decreases n,
    {
        if n == 0 {
            self
        } else {
            self.step_read(id).steps_read(id, (n - 1) as nat)
        }
    }

    /// Writer `id` does `n` accesses, one after the other.
    pub open spec fn steps_write(self, id: nat, n: nat) -> Machine<T>
        decreases n,
    {
        if n == 0 {
            self
        } else {
            self.step_write(id).steps_write(id, (n - 1) as nat)
        }
    }

    /// A bound on the accesses that reader `id` does until it is over, starts over or wins a claim.
    /// Being late for the slot whose index it loaded costs it a start.
    pub open spec fn read_rank(self, id: nat) -> nat {
        let late = self.readers[id].ticket != self.next_read();
        match self.readers[id].op {
            ReadOp::LoadIndex => 5,
            ReadOp::LoadStamp { idx } => if late {
                9
            } else {
                4
            },
            ReadOp::LoadWriteIndex { idx } => if late || self.next_read() < self.next_write() {
                8
            } else {
                3
            },
            ReadOp::Claim { idx } => if late {
                8
            } else {
                3
            },
            ReadOp::Take { idx } => 2,
            ReadOp::Release { idx, value } => 1,
            ReadOp::Done(r) => 0,
        }
    }

    /// A bound on the accesses that writer `id` does until it is over, starts over or wins a claim.
    pub open spec fn write_rank(self, id: nat) -> nat {
        let late = self.writers[id].ticket != self.next_write();
        match self.writers[id].op {
            WriteOp::LoadIndex { value } => 5,
            WriteOp::LoadStamp { idx, value } => if late {
                9
            } else {
                4
            },
            WriteOp::LoadReadIndex { idx, value } => if late || self.next_write()
                < self.next_read() + self.layout.capacity {
                8
            } else {
                3
            },
            WriteOp::Claim { idx, value } => if late {
                8
            } else {
                3
            },
            WriteOp::Put { idx, value } => 2,
            WriteOp::Publish { idx } => 1,
            WriteOp::Done(r) => 0,
        }
    }

    /// The ranks of some readers, added up.
    pub open spec fn read_ranks(self, ids: Seq<nat>) -> nat
        decreases ids.len(),
    {
        if ids.len() == 0 {
            0
        } else {
            self.read_ranks(ids.drop_last()) + self.read_rank(ids.last())
        }
    }

    /// The ranks of some writers, added up.
    pub open spec fn write_ranks(self, ids: Seq<nat>) -> nat
        decreases ids.len(),
    {
        if ids.len() == 0 {
            0
        } else {
            self.write_ranks(ids.drop_last()) + self.write_rank(ids.last())
        }
    }

    /// Ranks are at most nine.
    proof fn lemma_read_ranks_bound(self, ids: Seq<nat>)
        ensures
            self.read_ranks(ids) <= 9 * ids.len(),
        decreases ids.len(),
    {
        if ids.len() > 0 {
            self.lemma_read_ranks_bound(ids.drop_last());
        }
    }

    /// Ranks are at most nine.
    proof fn lemma_write_ranks_bound(self, ids: Seq<nat>)
        ensures
            self.write_ranks(ids) <= 9 * ids.len(),
        decreases ids.len(),
    {
        if ids.len() > 0 {
            self.lemma_write_ranks_bound(ids.drop_last());
        }
    }

    /// Where one rank falls and the others stay, their sum falls.
    proof fn lemma_read_ranks_fall(self, post: Machine<T>, ids: Seq<nat>, id: nat)
        requires
            post.read_rank(id) < self.read_rank(id),
            forall|k: nat| k != id ==> #[trigger] post.read_rank(k) == self.read_rank(k),
        ensures
            post.read_ranks(ids) <= self.read_ranks(ids),
            ids.contains(id) ==> post.read_ranks(ids) < self.read_ranks(ids),
        decreases ids.len(),
    {
        if ids.len() > 0 {
            self.lemma_read_ranks_fall(post, ids.drop_last(), id);
            if ids.contains(id) && ids.last() != id {
                let i = choose|i: int| 0 <= i < ids.len() && ids[i] == id;
                assert(ids.drop_last()[i] == id);
            }
        }
    }

    /// Where one rank falls and the others stay, their sum falls.
    proof fn lemma_write_ranks_fall(self, post: Machine<T>, ids: Seq<nat>, id: nat)
        requires
            post.write_rank(id) < self.write_rank(id),
            forall|k: nat| k != id ==> #[trigger] post.write_rank(k) == self.write_rank(k),
        ensures
            post.write_ranks(ids) <= self.write_ranks(ids),
            ids.contains(id) ==> post.write_ranks(ids) < self.write_ranks(ids),
        decreases ids.len(),
    {
        if ids.len() > 0 {
            self.lemma_write_ranks_fall(post, ids.drop_last(), id);
            if ids.contains(id) && ids.last() != id {
                let i = choose|i: int| 0 <= i < ids.len() && ids[i] == id;
                assert(ids.drop_last()[i] == id);
            }
        }
    }

    /// Every one of `events` is an access of one of the readers `ids`, done while its read is
    /// under way.
    pub open spec fn are_steps_of_reads(self, ids: Seq<nat>, events: Seq<Event<T>>) -> bool
        decreases events.len(),
    {
        events.len() == 0 || (match events[0] {
            Event::StepRead { id } => ids.contains(id) && self.readers[id].op !is Done,
            _ => false,
        } && self.after(events[0]).are_steps_of_reads(ids, events.drop_first()))
    }

    /// Every one of `events` is an access of one of the writers `ids`, done while its write is
    /// under way.
    pub open spec fn are_steps_of_writes(self, ids: Seq<nat>, events: Seq<Event<T>>) -> bool
        decreases events.len(),
    {
        events.len() == 0 || (match events[0] {
            Event::StepWrite { id } => ids.contains(id) && self.writers[id].op !is Done,
            _ => false,
        } && self.after(events[0]).are_steps_of_writes(ids, events.drop_first()))
    }

    /// How many accesses the readers `ids` can still do.
    pub open spec fn read_budget(self, ids: Seq<nat>) -> nat {
        self.contents().len() * (10 * ids.len()) + self.read_ranks(ids)
    }

    /// How many accesses the writers `ids` can still do.
    pub open spec fn write_budget(self, ids: Seq<nat>) -> int {
        (self.layout.capacity - self.contents().len()) * (10 * ids.len()) + self.write_ranks(ids)
    }

    /// An access of a read under way uses up some of the budget.
    proof fn lemma_read_budget(self, ids: Seq<nat>, id: nat)
        requires
            self.inv(),
            self.writes_are_settled(),
            self.enabled(Event::StepRead { id }),
            ids.contains(id),
            self.readers[id].op !is Done,
        ensures
            self.step_read(id).inv(),
            self.step_read(id).writes_are_settled(),
            self.step_read(id).read_budget(ids) < self.read_budget(ids),
    {
        let post = self.step_read(id);
        let r = self.next_read();
        let ticket = self.readers[id].ticket;
        let n = ids.len() as int;
        let k = self.contents().len() as int;
        self.lemma_event(Event::StepRead { id });
        assert(self.reader_ok(id));
        self.layout.lemma_laps();
        assert forall|t: int| post.next_read() <= t < post.next_write() implies post.writers[
            #[trigger] post.written_by[t]].op is Done by {
            assert(self.writers[self.written_by[t]].op is Done);
        }
        if self.readers[id].op is Claim && post.readers[id].op is Take {
            post.lemma_read_ranks_bound(ids);
            assert(post.contents().len() == k - 1);
            assert((k - 1) * (10 * n) + 9 * n < k * (10 * n)) by (nonlinear_arith)
                requires
                    n > 0,
            ;
        } else {
            assert(post.next_read() == r);
            self.layout.lemma_ticket(r);
            assert(self.slot_ok(r));
            if r < self.next_write() {
                assert(self.write_ticket_ok(r));
                assert(self.writers[self.written_by[r]].op is Done);
            } else if r >= self.layout.capacity {
                self.layout.lemma_next_lap(r - self.layout.capacity);
            }
            assert(post.read_rank(id) < self.read_rank(id));
            assert forall|j: nat| j != id implies #[trigger] post.read_rank(j) == self.read_rank(
                j,
            ) by {
                assert(post.readers[j] == self.readers[j]);
            }
            self.lemma_read_ranks_fall(post, ids, id);
            assert(post.contents().len() == k);
        }
    }

    /// An access of a write under way uses up some of the budget.
    proof fn lemma_write_budget(self, ids: Seq<nat>, id: nat)
        requires
            self.inv(),
            self.reads_are_settled(),
            self.enabled(Event::StepWrite { id }),
            ids.contains(id),
            self.writers[id].op !is Done,
        ensures
            self.step_write(id).inv(),
            self.step_write(id).reads_are_settled(),
            self.step_write(id).write_budget(ids) < self.write_budget(ids),
    {
        let post = self.step_write(id);
        let w = self.next_write();
        let cap = self.layout.capacity;
        let n = ids.len() as int;
        let k = cap - self.contents().len();
        self.lemma_event(Event::StepWrite { id });
        assert(self.writer_ok(id));
        self.layout.lemma_laps();
        assert forall|t: int|
            0 <= t < post.next_read() && post.next_write() <= t + cap implies post.readers[
            #[trigger] post.read_by[t]].op is Done by {
            assert(self.readers[self.read_by[t]].op is Done);
        }
        if self.writers[id].op is Claim && post.writers[id].op is Put {
            post.lemma_write_ranks_bound(ids);
            assert(cap - post.contents().len() == k - 1);
            assert((k - 1) * (10 * n) + 9 * n < k * (10 * n)) by (nonlinear_arith)
                requires
                    n > 0,
            ;
        } else {
            assert(post.next_write() == w);
            self.layout.lemma_ticket(w);
            self.layout.lemma_ticket(self.next_read());
            self.layout.lemma_next_lap(self.next_read());
            if w < self.next_read() + cap {
                assert(self.slot_ok(w));
                if w >= cap {
                    assert(self.read_ticket_ok(w - cap));
                    assert(self.readers[self.read_by[w - cap]].op is Done);
                }
            } else {
                assert(self.slot_ok(self.next_read()));
            }
            assert(post.write_rank(id) < self.write_rank(id));
            assert forall|j: nat| j != id implies #[trigger] post.write_rank(j)
                == self.write_rank(j) by {
                assert(post.writers[j] == self.writers[j]);
            }
            self.lemma_write_ranks_fall(post, ids, id);
            assert(cap - post.contents().len() == k);
        }
    }

    /// Readers do not hold each other up. From any state in which the writer of every item has
    /// stamped its slot, let only the readers `ids` run, in any order, while everybody else is
    /// suspended, and let no claim fail without need. Then the run has at most ten accesses for each
    /// reader and each item, and ten more for each reader. While the writer of the oldest item is
    /// between its claim and its stamp, readers wait for it.
    pub proof fn law_reads_come_to_an_end(self, ids: Seq<nat>, events: Seq<Event<T>>)
        requires
            self.inv(),
            self.writes_are_settled(),
            self.can_run(events),
            self.stays_in_limit(events),
            self.are_steps_of_reads(ids, events),
        ensures
            events.len() <= (self.contents().len() + 1) * (10 * ids.len()),
    {
        self.lemma_reads_end(ids, events);
        self.lemma_read_ranks_bound(ids);
        let k = self.contents().len() as int;
        let n = ids.len() as int;
        assert(k * (10 * n) + 10 * n == (k + 1) * (10 * n)) by (nonlinear_arith);
    }

    /// Writers do not hold each other up. From any state in which the reader of every vacant slot
    /// has stamped it, let only the writers `ids` run, in any order, while everybody else is
    /// suspended, and let no claim fail without need. Then the run has at most ten accesses for each
    /// writer and each vacant place, and ten more for each writer. While the reader of the next slot
    /// is between its claim and its stamp, writers wait for it.
    pub proof fn law_writes_come_to_an_end(self, ids: Seq<nat>, events: Seq<Event<T>>)
        requires
            self.inv(),
            self.reads_are_settled(),
            self.can_run(events),
            self.stays_in_limit(events),
            self.are_steps_of_writes(ids, events),
        ensures
            events.len() <= (self.layout.capacity - self.contents().len() + 1) * (10 * ids.len()),
    {
        self.lemma_writes_end(ids, events);
        self.lemma_write_ranks_bound(ids);
        let k = self.layout.capacity - self.contents().len();
        let n = ids.len() as int;
        assert(k * (10 * n) + 10 * n == (k + 1) * (10 * n)) by (nonlinear_arith);
    }

    /// A run of reads stays within its budget.
    proof fn lemma_reads_end(self, ids: Seq<nat>, events: Seq<Event<T>>)
        requires
            self.inv(),
            self.writes_are_settled(),
            self.can_run(events),
            self.stays_in_limit(events),
            self.are_steps_of_reads(ids, events),
        ensures
            events.len() <= self.read_budget(ids),
        decreases events.len(),
    {
        if events.len() > 0 {
            if let Event::StepRead { id } = events[0] {
                self.lemma_read_budget(ids, id);
                self.step_read(id).lemma_reads_end(ids, events.drop_first());
            }
        } else {
            assert(0 <= self.contents().len() * (10 * ids.len())) by (nonlinear_arith);
        }
    }

    /// A run of writes stays within its budget.
    proof fn lemma_writes_end(self, ids: Seq<nat>, events: Seq<Event<T>>)
        requires
            self.inv(),
            self.reads_are_settled(),
            self.can_run(events),
            self.stays_in_limit(events),
            self.are_steps_of_writes(ids, events),
        ensures
            events.len() <= self.write_budget(ids),
        decreases events.len(),
    {
        if events.len() > 0 {
            if let Event::StepWrite { id } = events[0] {
                self.lemma_write_budget(ids, id);
                self.step_write(id).lemma_writes_end(ids, events.drop_first());
            }
        } else {
            let k = self.layout.capacity - self.contents().len();
            assert(0 <= k * (10 * ids.len())) by (nonlinear_arith)
                requires
                    k >= 0,
            ;
        }
    }

    /// An operation that was begun can always do its next access. So a run that cannot go on has
    /// left none of its operations under way.
    pub proof fn law_next_access_is_possible(self, reader: nat, writer: nat)
        requires
            self.inv(),
            self.readers.contains_key(reader),
            self.writers.contains_key(writer),
        ensures
            self.possible(Event::StepRead { id: reader }),
            self.possible(Event::StepWrite { id: writer }),
    {
        if self.readers[reader].op is Take {
            self.law_reader_finds_its_value(reader);
        }
    }

    /// A read that nobody disturbs is over after five accesses of its own, with the oldest item or
    /// with `Empty`, unless the writer of the oldest item is between its claim and its stamp.
    pub proof fn law_undisturbed_read_ends(self, id: nat)
        requires
            self.inv(),
            self.readers.contains_key(id),
            self.readers[id].op is LoadIndex,
            self.contents().len() > 0 ==> self.writers[self.written_by[self.next_read()]].op is Done,
        ensures
            self.steps_read(id, 5).readers[id].op == ReadOp::Done(
                if self.contents().len() > 0 {
                    Ok::<T, RingBufferError>(self.contents()[0])
                } else {
                    Err(RingBufferError::Empty)
                },
            ),
    {
        reveal_with_fuel(Machine::steps_read, 6);
        let r = self.next_read();
        self.layout.lemma_laps();
        self.layout.lemma_ticket(r);
        assert(self.slot_ok(r));
        if r < self.next_write() {
            assert(self.write_ticket_ok(r));
        } else if r >= self.layout.capacity {
            self.layout.lemma_next_lap(r - self.layout.capacity);
        }
        let m1 = self.step_read(id);
        let m2 = m1.step_read(id);
        let m3 = m2.step_read(id);
        let m4 = m3.step_read(id);
        assert(m4.step_read(id) == self.steps_read(id, 5));
    }

    /// A write that nobody disturbs is over after five accesses of its own, accepted or with
    /// `Full`, unless the reader of its slot is between its claim and its stamp.
    pub proof fn law_undisturbed_write_ends(self, id: nat)
        requires
            self.inv(),
            self.writers.contains_key(id),
            self.writers[id].op is LoadIndex,
            self.contents().len() < self.layout.capacity && self.next_write()
                >= self.layout.capacity ==> self.readers[self.read_by[self.next_write()
                - self.layout.capacity]].op is Done,
        ensures
            self.steps_write(id, 5).writers[id].op == WriteOp::<T>::Done(
                if self.contents().len() < self.layout.capacity {
                    Ok(())
                } else {
                    Err(RingBufferError::Full)
                },
            ),
    {
        reveal_with_fuel(Machine::steps_write, 6);
        let r = self.next_read();
        let w = self.next_write();
        let cap = self.layout.capacity;
        self.layout.lemma_laps();
        self.layout.lemma_ticket(r);
        self.layout.lemma_ticket(w);
        self.layout.lemma_next_lap(r);
        if w < r + cap {
            assert(self.slot_ok(w));
            if w >= cap {
                assert(self.read_ticket_ok(w - cap));
            }
        } else {
            assert(self.slot_ok(r));
        }
        let m1 = self.step_write(id);
        let m2 = m1.step_write(id);
        let m3 = m2.step_write(id);
        let m4 = m3.step_write(id);
        assert(m4.step_write(id) == self.steps_write(id, 5));
    }
}

} // verus!
