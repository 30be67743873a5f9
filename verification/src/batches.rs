use crate::error::RingBufferError;
use crate::ops::{ReadOp, WriteOp};
use crate::protocol::{Event, Machine};
use vstd::prelude::*;
use vstd::set_lib::*;

verus! {

/// Only readers are at work in `events`.
pub open spec fn only_reads<T>(events: Seq<Event<T>>) -> bool {
    forall|i: int|
        0 <= i < events.len() ==> match #[trigger] events[i] {
            Event::BeginRead { id } => true,
            Event::StepRead { id } => true,
            Event::LoseRead { id } => true,
            _ => false,
        }
}

/// Only writers are at work in `events`.
pub open spec fn only_writes<T>(events: Seq<Event<T>>) -> bool {
    forall|i: int|
        0 <= i < events.len() ==> match #[trigger] events[i] {
            Event::BeginWrite { id, value } => true,
            Event::StepWrite { id } => true,
            Event::LoseWrite { id } => true,
            _ => false,
        }
}

/// The lesser of two numbers.
pub open spec fn lesser(a: nat, b: nat) -> nat {
    if a < b {
        a
    } else {
        b
    }
}

impl<T> Machine<T> {
    /// Every read that was begun is over.
    pub open spec fn reads_are_over(self) -> bool {
        forall|id: nat| #[trigger] self.readers.contains_key(id) ==> self.readers[id].op is Done
    }

    /// Every write that was begun is over.
    pub open spec fn writes_are_over(self) -> bool {
        forall|id: nat| #[trigger] self.writers.contains_key(id) ==> self.writers[id].op is Done
    }

    /// The readers that were not there at `start`.
    pub open spec fn readers_since(self, start: Machine<T>) -> Set<nat> {
        self.readers.dom().difference(start.readers.dom())
    }

    /// The writers that were not there at `start`.
    pub open spec fn writers_since(self, start: Machine<T>) -> Set<nat> {
        self.writers.dom().difference(start.writers.dom())
    }

    /// The readers that claimed a slot since `start`, in the order of their claims.
    pub open spec fn read_claims_since(self, start: Machine<T>) -> Seq<nat> {
        self.read_by.subrange(start.next_read(), self.next_read())
    }

    /// The writers that claimed a slot since `start`, in the order of their claims.
    pub open spec fn write_claims_since(self, start: Machine<T>) -> Seq<nat> {
        self.written_by.subrange(start.next_write(), self.next_write())
    }

    /// Of the readers that were not there at `start`, the ones that returned a value.
    pub open spec fn served_since(self, start: Machine<T>) -> Set<nat> {
        self.readers_since(start).filter(
            |id: nat|
                match self.readers[id].op {
                    ReadOp::Done(Ok(v)) => true,
                    _ => false,
                },
        )
    }

    /// Of the writers that were not there at `start`, the ones that were accepted.
    pub open spec fn accepted_since(self, start: Machine<T>) -> Set<nat> {
        self.writers_since(start).filter(
            |id: nat|
                match self.writers[id].op {
                    WriteOp::Done(Ok(_)) => true,
                    _ => false,
                },
        )
    }

    /// What is known of a reader that came after `start`, while only readers are at work.
    pub open spec fn late_reader_ok(self, start: Machine<T>, id: nat) -> bool {
        match self.readers[id].op {
            ReadOp::LoadIndex => true,
            ReadOp::Done(Err(e)) => self.next_read() == self.next_write(),
            _ => self.readers[id].ticket >= start.next_read(),
        }
    }

    /// What is known of a writer that came after `start`, while only writers are at work.
    pub open spec fn late_writer_ok(self, start: Machine<T>, id: nat) -> bool {
        match self.writers[id].op {
            WriteOp::LoadIndex { value } => true,
            WriteOp::Done(Err(e)) => self.next_write() == self.next_read() + self.layout.capacity,
            _ => self.writers[id].ticket >= start.next_write(),
        }
    }

    /// What only readers made of the ring since `start`.
    pub open spec fn only_read_since(self, start: Machine<T>) -> bool {
        &&& self.inv()
        &&& self.layout == start.layout
        &&& self.written_by == start.written_by
        &&& self.log == start.log
        &&& start.next_read() <= self.next_read()
        &&& self.readers_since(start).finite()
        &&& forall|id: nat|
            start.readers.contains_key(id) ==> #[trigger] self.readers.contains_key(id)
                && self.readers[id] == start.readers[id]
        &&& forall|id: nat|
            self.readers.contains_key(id) && !start.readers.contains_key(id)
                ==> #[trigger] self.late_reader_ok(start, id)
    }

    /// What only writers made of the ring since `start`.
    pub open spec fn only_written_since(self, start: Machine<T>) -> bool {
        &&& self.inv()
        &&& self.layout == start.layout
        &&& self.read_by == start.read_by
        &&& start.next_write() <= self.next_write()
        &&& self.log.subrange(0, start.next_write()) == start.log
        &&& self.writers_since(start).finite()
        &&& forall|id: nat|
            start.writers.contains_key(id) ==> #[trigger] self.writers.contains_key(id)
                && self.writers[id] == start.writers[id]
        &&& forall|id: nat|
            self.writers.contains_key(id) && !start.writers.contains_key(id)
                ==> #[trigger] self.late_writer_ok(start, id)
    }

    /// One event of a reader.
    proof fn lemma_only_read_step(self, start: Machine<T>, event: Event<T>)
        requires
            start.inv(),
            start.reads_are_over(),
            self.only_read_since(start),
            self.possible(event),
            only_reads(seq![event]),
        ensures
            self.after(event).only_read_since(start),
    {
        let post = self.after(event);
        self.layout.lemma_laps();
        assert(seq![event][0] == event);
        let moved: nat = match event {
            Event::BeginRead { id } => id,
            Event::StepRead { id } => id,
            Event::LoseRead { id } => id,
            _ => 0,
        };
        if self.readers.contains_key(moved) {
            assert(start.readers.contains_key(moved) || self.late_reader_ok(start, moved));
        }
        self.lemma_event(event);
        if !start.readers.contains_key(moved) {
            assert(post.readers_since(start) =~= self.readers_since(start).insert(moved));
            if self.readers.contains_key(moved) {
                assert(self.reader_ok(moved));
                assert(self.late_reader_ok(start, moved));
                if self.readers[moved].op is LoadWriteIndex && post.readers[moved].op is Done {
                    self.layout.lemma_same_index(self.readers[moved].ticket, self.next_write());
                }
            }
        } else {
            assert(self.readers.contains_key(moved));
            assert(post.readers =~= self.readers);
            assert(post.readers_since(start) =~= self.readers_since(start));
        }
        assert forall|id: nat|
            post.readers.contains_key(id) && !start.readers.contains_key(
                id,
            ) implies #[trigger] post.late_reader_ok(start, id) by {
            if id != moved {
                assert(self.late_reader_ok(start, id));
            }
        }
        assert forall|id: nat|
            start.readers.contains_key(id) implies #[trigger] post.readers.contains_key(id)
            && post.readers[id] == start.readers[id] by {
            assert(self.readers.contains_key(id));
        }
    }

    /// One event of a writer.
    proof fn lemma_only_written_step(self, start: Machine<T>, event: Event<T>)
        requires
            start.inv(),
            start.writes_are_over(),
            self.only_written_since(start),
            self.possible(event),
            only_writes(seq![event]),
        ensures
            self.after(event).only_written_since(start),
    {
        let post = self.after(event);
        self.layout.lemma_laps();
        assert(seq![event][0] == event);
        let moved: nat = match event {
            Event::BeginWrite { id, value } => id,
            Event::StepWrite { id } => id,
            Event::LoseWrite { id } => id,
            _ => 0,
        };
        if self.writers.contains_key(moved) {
            assert(start.writers.contains_key(moved) || self.late_writer_ok(start, moved));
        }
        self.lemma_event(event);
        assert(post.log.subrange(0, start.next_write()) =~= self.log.subrange(
            0,
            start.next_write(),
        ));
        if !start.writers.contains_key(moved) {
            assert(post.writers_since(start) =~= self.writers_since(start).insert(moved));
            if self.writers.contains_key(moved) {
                assert(self.writer_ok(moved));
                assert(self.late_writer_ok(start, moved));
                if self.writers[moved].op is LoadReadIndex && post.writers[moved].op is Done {
                    let r = self.next_read();
                    let ticket = self.writers[moved].ticket;
                    self.layout.lemma_ticket(r);
                    self.layout.lemma_ticket(ticket);
                    if ticket < r + self.layout.capacity {
                        self.layout.lemma_same_slot(r, ticket);
                    }
                }
            }
        } else {
            assert(self.writers.contains_key(moved));
            assert(post.writers =~= self.writers);
            assert(post.writers_since(start) =~= self.writers_since(start));
        }
        assert forall|id: nat|
            post.writers.contains_key(id) && !start.writers.contains_key(
                id,
            ) implies #[trigger] post.late_writer_ok(start, id) by {
            if id != moved {
                assert(self.late_writer_ok(start, id));
            }
        }
        assert forall|id: nat|
            start.writers.contains_key(id) implies #[trigger] post.writers.contains_key(id)
            && post.writers[id] == start.writers[id] by {
            assert(self.writers.contains_key(id));
        }
    }

    /// A run of readers.
    pub proof fn lemma_only_read_run(self, start: Machine<T>, events: Seq<Event<T>>)
        requires
            start.inv(),
            start.reads_are_over(),
            self.only_read_since(start),
            self.can_run(events),
            only_reads(events),
        ensures
            self.run(events).only_read_since(start),
        decreases events.len(),
    {
        if events.len() > 0 {
            let event = events[0];
            assert(only_reads(seq![event]));
            self.lemma_only_read_step(start, event);
            assert forall|i: int| 0 <= i < events.drop_first().len() implies match #[trigger]
                events.drop_first()[i] {
                Event::BeginRead { id } => true,
                Event::StepRead { id } => true,
                Event::LoseRead { id } => true,
                _ => false,
            } by {
                assert(events.drop_first()[i] == events[i + 1]);
            }
            self.after(event).lemma_only_read_run(start, events.drop_first());
        }
    }

    /// A run of writers.
    pub proof fn lemma_only_written_run(self, start: Machine<T>, events: Seq<Event<T>>)
        requires
            start.inv(),
            start.writes_are_over(),
            self.only_written_since(start),
            self.can_run(events),
            only_writes(events),
        ensures
            self.run(events).only_written_since(start),
        decreases events.len(),
    {
        if events.len() > 0 {
            let event = events[0];
            assert(only_writes(seq![event]));
            self.lemma_only_written_step(start, event);
            assert forall|i: int| 0 <= i < events.drop_first().len() implies match #[trigger]
                events.drop_first()[i] {
                Event::BeginWrite { id, value } => true,
                Event::StepWrite { id } => true,
                Event::LoseWrite { id } => true,
                _ => false,
            } by {
                assert(events.drop_first()[i] == events[i + 1]);
            }
            self.after(event).lemma_only_written_run(start, events.drop_first());
        }
    }

    /// Readers at work on a ring with some items: as many are served as there are items for.
    pub proof fn lemma_served(self, start: Machine<T>)
        requires
            start.inv(),
            self.only_read_since(start),
            self.reads_are_over(),
        ensures
            self.served_since(start).len() == lesser(
                self.readers_since(start).len(),
                start.contents().len(),
            ),
            self.read_claims_since(start).no_duplicates(),
            self.read_claims_since(start).to_set() == self.served_since(start),
            self.read_claims_since(start).len() == self.served_since(start).len(),
            forall|i: int|
                0 <= i < self.read_claims_since(start).len() ==> self.readers[#[trigger]
                self.read_claims_since(start)[i]].op == ReadOp::Done(
                    Ok::<T, RingBufferError>(start.contents()[i]),
                ),
            forall|id: nat| #[trigger]
                self.readers_since(start).contains(id) && !self.served_since(start).contains(id)
                    ==> self.readers[id].op == ReadOp::Done(
                    Err::<T, RingBufferError>(RingBufferError::Empty),
                ),
            self.contents() == start.contents().skip(self.served_since(start).len() as int),
    {
        let all = self.readers_since(start);
        let served = self.served_since(start);
        let claims = self.read_claims_since(start);
        assert forall|i: int, j: int| 0 <= i < j < claims.len() implies claims[i] != claims[j] by {
            assert(self.read_ticket_ok(start.next_read() + i));
            assert(self.read_ticket_ok(start.next_read() + j));
        }
        assert forall|id: nat| claims.to_set().contains(id) implies served.contains(id) by {
            let i = choose|i: int| 0 <= i < claims.len() && claims[i] == id;
            assert(self.read_ticket_ok(start.next_read() + i));
            if start.readers.contains_key(id) {
                assert(self.readers.contains_key(id));
                assert(start.reader_ok(id));
            }
        }
        assert forall|id: nat| served.contains(id) implies claims.to_set().contains(id) by {
            assert(self.reader_ok(id));
            assert(self.late_reader_ok(start, id));
            assert(claims[self.readers[id].ticket - start.next_read()] == id);
        }
        assert(claims.to_set() =~= served);
        claims.unique_seq_to_set();
        lemma_len_subset(served, all);
        if exists|id: nat| all.contains(id) && !served.contains(id) {
            let id = choose|id: nat| all.contains(id) && !served.contains(id);
            assert(self.readers.contains_key(id));
            assert(self.late_reader_ok(start, id));
        } else {
            assert(all =~= served);
        }
        assert forall|i: int| 0 <= i < claims.len() implies self.readers[#[trigger] claims[i]].op
            == ReadOp::Done(Ok::<T, RingBufferError>(start.contents()[i])) by {
            assert(self.read_ticket_ok(start.next_read() + i));
            assert(self.readers.contains_key(claims[i]));
            assert(self.reader_ok(claims[i]));
        }
        assert forall|id: nat| #[trigger] all.contains(id) && !served.contains(
            id,
        ) implies self.readers[id].op == ReadOp::Done(
            Err::<T, RingBufferError>(RingBufferError::Empty),
        ) by {
            assert(self.readers.contains_key(id));
            assert(self.reader_ok(id));
        }
    }

    /// Writers at work on a ring with room for some items: as many are accepted as there is room
    /// for.
    pub proof fn lemma_accepted(self, start: Machine<T>)
        requires
            start.inv(),
            self.only_written_since(start),
            self.writes_are_over(),
        ensures
            self.accepted_since(start).len() == lesser(
                self.writers_since(start).len(),
                (start.layout.capacity - start.contents().len()) as nat,
            ),
            self.write_claims_since(start).no_duplicates(),
            self.write_claims_since(start).to_set() == self.accepted_since(start),
            self.contents() == start.contents() + self.write_claims_since(start).map_values(
                |id: nat| self.writers[id].value,
            ),
            forall|id: nat| #[trigger]
                self.writers_since(start).contains(id) && !self.accepted_since(start).contains(id)
                    ==> self.writers[id].op == WriteOp::<T>::Done(Err(RingBufferError::Full)),
    {
        let all = self.writers_since(start);
        let accepted = self.accepted_since(start);
        let claims = self.write_claims_since(start);
        assert forall|i: int, j: int| 0 <= i < j < claims.len() implies claims[i] != claims[j] by {
            assert(self.write_ticket_ok(start.next_write() + i));
            assert(self.write_ticket_ok(start.next_write() + j));
        }
        assert forall|id: nat| claims.to_set().contains(id) implies accepted.contains(id) by {
            let i = choose|i: int| 0 <= i < claims.len() && claims[i] == id;
            assert(self.write_ticket_ok(start.next_write() + i));
            if start.writers.contains_key(id) {
                assert(self.writers.contains_key(id));
                assert(start.writer_ok(id));
            }
        }
        assert forall|id: nat| accepted.contains(id) implies claims.to_set().contains(id) by {
            assert(self.writer_ok(id));
            assert(self.late_writer_ok(start, id));
            assert(claims[self.writers[id].ticket - start.next_write()] == id);
        }
        assert(claims.to_set() =~= accepted);
        claims.unique_seq_to_set();
        lemma_len_subset(accepted, all);
        if exists|id: nat| all.contains(id) && !accepted.contains(id) {
            let id = choose|id: nat| all.contains(id) && !accepted.contains(id);
            assert(self.writers.contains_key(id));
            assert(self.late_writer_ok(start, id));
        } else {
            assert(all =~= accepted);
        }
        let values = claims.map_values(|id: nat| self.writers[id].value);
        assert forall|i: int| 0 <= i < self.contents().len() implies #[trigger] self.contents()[i]
            == (start.contents() + values)[i] by {
            let t = self.next_read() + i;
            if t < start.next_write() {
                assert(self.log.subrange(0, start.next_write())[t] == start.log[t]);
            } else {
                assert(self.write_ticket_ok(t));
                assert(self.writer_ok(self.written_by[t]));
            }
        }
        assert(self.contents() =~= start.contents() + values);
        assert forall|id: nat| #[trigger] all.contains(id) && !accepted.contains(
            id,
        ) implies self.writers[id].op == WriteOp::<T>::Done(Err(RingBufferError::Full)) by {
            assert(self.writers.contains_key(id));
            assert(self.writer_ok(id));
        }
    }
}

} // verus!
