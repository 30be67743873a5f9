use crate::error::RingBufferError;
use crate::layout::Layout;
use crate::memory::Memory;
use crate::ops::{ReadOp, WriteOp};
use vstd::prelude::*;

verus! {

/// A read under way or over, with the ticket that the read index stood for when the reader claimed
/// its slot or, before that, loaded the index, and the writer that stored the value it took.
pub struct Reader<T> {
    pub op: ReadOp<T>,
    pub ticket: int,
    pub source: Option<nat>,
}

/// A write under way or over, with the ticket that the write index stood for when the writer
/// claimed its slot or, before that, loaded the index, and the value that it was started with.
pub struct Writer<T> {
    pub op: WriteOp<T>,
    pub ticket: int,
    pub value: T,
}

/// A ring that any number of readers and writers share, and what happened to it so far.
///
/// Accesses to the shared memory come one after the other, in any order that the operations
/// allow. The tickets, the sources, the log and the lists of claims are the ring's history; no
/// operation looks at them.
pub struct Machine<T> {
    pub layout: Layout,
    pub memory: Memory<T>,
    pub readers: Map<nat, Reader<T>>,
    pub writers: Map<nat, Writer<T>>,
    /// The values whose writers claimed a slot, in the order of their claims.
    pub log: Seq<T>,
    /// The readers that claimed a slot, in the order of their claims.
    pub read_by: Seq<nat>,
    /// The writers that claimed a slot, in the order of their claims.
    pub written_by: Seq<nat>,
    /// For each slot, the writer that stored the value in its cell.
    pub sources: Seq<Option<nat>>,
}

/// What can happen next: an operation begins, does its next access, or loses a claim that the
/// processor fails without need.
pub enum Event<T> {
    BeginRead { id: nat },
    BeginWrite { id: nat, value: T },
    StepRead { id: nat },
    StepWrite { id: nat },
    LoseRead { id: nat },
    LoseWrite { id: nat },
}

impl<T> Machine<T> {
    /// A new ring with nobody at work on it.
    pub open spec fn initial(layout: Layout) -> Machine<T> {
        Machine {
            layout,
            memory: Memory::initial(layout),
            readers: Map::empty(),
            writers: Map::empty(),
            log: Seq::empty(),
            read_by: Seq::empty(),
            written_by: Seq::empty(),
            sources: Seq::new(layout.capacity as nat, |i: int| None),
        }
    }

    /// The ticket of the next reader.
    pub open spec fn next_read(self) -> int {
        self.read_by.len() as int
    }

    /// The ticket of the next writer.
    pub open spec fn next_write(self) -> int {
        self.written_by.len() as int
    }

    /// The claimed values that no reader has claimed yet, oldest first.
    pub open spec fn contents(self) -> Seq<T> {
        self.log.subrange(self.next_read(), self.next_write())
    }

    /// Reader `id` does its next access.
    pub open spec fn step_read(self, id: nat) -> Machine<T> {
        let reader = self.readers[id];
        let (memory, op) = reader.op.step(self.layout, self.memory);
        let claims = reader.op is Claim && op is Take;
        let ticket = if reader.op is LoadIndex || claims {
            self.next_read()
        } else {
            reader.ticket
        };
        let read_by = if claims {
            self.read_by.push(id)
        } else {
            self.read_by
        };
        let (source, sources) = match reader.op {
            ReadOp::Take { idx } => {
                let slot = self.layout.slot_of(idx as int);
                (self.sources[slot], self.sources.update(slot, None))
            },
            _ => (reader.source, self.sources),
        };
        Machine {
            memory,
            readers: self.readers.insert(id, Reader { op, ticket, source }),
            read_by,
            sources,
            ..self
        }
    }

    /// Writer `id` does its next access.
    pub open spec fn step_write(self, id: nat) -> Machine<T> {
        let writer = self.writers[id];
        let (memory, op) = writer.op.step(self.layout, self.memory);
        let claims = writer.op is Claim && op is Put;
        let ticket = if writer.op is LoadIndex || claims {
            self.next_write()
        } else {
            writer.ticket
        };
        let written_by = if claims {
            self.written_by.push(id)
        } else {
            self.written_by
        };
        let log = if claims {
            self.log.push(writer.value)
        } else {
            self.log
        };
        let sources = match writer.op {
            WriteOp::Put { idx, value } => self.sources.update(
                self.layout.slot_of(idx as int),
                Some(id),
            ),
            _ => self.sources,
        };
        Machine {
            memory,
            writers: self.writers.insert(id, Writer { op, ticket, value: writer.value }),
            written_by,
            log,
            sources,
            ..self
        }
    }

    /// Where the next access of reader `id` claims a slot, the slot still has the stamp that the
    /// reader loaded.
    pub open spec fn read_claim_is_sound(self, id: nat) -> bool {
        self.readers[id].op matches ReadOp::Claim { idx } ==> self.memory.read_idx == idx
            ==> self.memory.stamps[self.layout.slot_of(idx as int)] == idx
    }

    /// The same of writer `id`.
    pub open spec fn write_claim_is_sound(self, id: nat) -> bool {
        self.writers[id].op matches WriteOp::Claim { idx, value } ==> self.memory.write_idx == idx
            ==> self.memory.stamps[self.layout.slot_of(idx as int)] == idx + 1
    }

    /// Whether `event` can happen now. A reader that finds no value in its cell waits.
    pub open spec fn possible(self, event: Event<T>) -> bool {
        match event {
            Event::BeginRead { id } => !self.readers.contains_key(id),
            Event::BeginWrite { id, value } => !self.writers.contains_key(id),
            Event::StepRead { id } => self.readers.contains_key(id) && self.readers[id].op.ready(
                self.layout,
                self.memory,
            ),
            Event::StepWrite { id } => self.writers.contains_key(id),
            Event::LoseRead { id } => self.readers.contains_key(id) && self.readers[id].op is Claim,
            Event::LoseWrite { id } => self.writers.contains_key(id)
                && self.writers[id].op is Claim,
        }
    }

    /// The limit of the machine word: an operation that is about to claim a slot has seen fewer
    /// claims go by since it loaded its index than there are indices. There are at least half as
    /// many indices as a word has values.
    pub open spec fn in_limit(self, event: Event<T>) -> bool {
        match event {
            Event::StepRead { id } => self.readers[id].op is Claim ==> self.next_read()
                < self.readers[id].ticket + self.layout.period(),
            Event::StepWrite { id } => self.writers[id].op is Claim ==> self.next_write()
                < self.writers[id].ticket + self.layout.period(),
            _ => true,
        }
    }

    /// Whether `event` can happen now, within the limit of the machine word.
    pub open spec fn enabled(self, event: Event<T>) -> bool {
        self.possible(event) && self.in_limit(event)
    }

    /// The ring and its history after `event`.
    pub open spec fn after(self, event: Event<T>) -> Machine<T> {
        match event {
            Event::BeginRead { id } => Machine {
                readers: self.readers.insert(id, Reader { op: ReadOp::LoadIndex, ticket: 0, source: None }),
                ..self
            },
            Event::BeginWrite { id, value } => Machine {
                writers: self.writers.insert(
                    id,
                    Writer { op: WriteOp::LoadIndex { value }, ticket: 0, value },
                ),
                ..self
            },
            Event::StepRead { id } => self.step_read(id),
            Event::StepWrite { id } => self.step_write(id),
            Event::LoseRead { id } => Machine {
                readers: self.readers.insert(
                    id,
                    Reader { op: ReadOp::LoadIndex, ..self.readers[id] },
                ),
                ..self
            },
            Event::LoseWrite { id } => Machine {
                writers: self.writers.insert(
                    id,
                    Writer {
                        op: WriteOp::LoadIndex { value: self.writers[id].value },
                        ..self.writers[id]
                    },
                ),
                ..self
            },
        }
    }

    /// Whether `events` can happen one after the other.
    pub open spec fn can_run(self, events: Seq<Event<T>>) -> bool
        decreases events.len(),
    {
        events.len() == 0 || (self.possible(events[0]) && self.after(events[0]).can_run(
            events.drop_first(),
        ))
    }

    /// Whether all of `events` happen within the limit of the machine word.
    pub open spec fn stays_in_limit(self, events: Seq<Event<T>>) -> bool
        decreases events.len(),
    {
        events.len() == 0 || (self.in_limit(events[0]) && self.after(events[0]).stays_in_limit(
            events.drop_first(),
        ))
    }

    /// The ring and its history after `events`.
    pub open spec fn run(self, events: Seq<Event<T>>) -> Machine<T>
        decreases events.len(),
    {
        if events.len() == 0 {
            self
        } else {
            self.after(events[0]).run(events.drop_first())
        }
    }

    /// Reader `id` claimed the ticket that it holds.
    pub open spec fn read_claimed(self, id: nat) -> bool {
        0 <= self.readers[id].ticket < self.next_read() && self.read_by[self.readers[id].ticket]
            == id
    }

    /// Writer `id` claimed the ticket that it holds.
    pub open spec fn write_claimed(self, id: nat) -> bool {
        0 <= self.writers[id].ticket < self.next_write() && self.written_by[self.writers[id].ticket]
            == id && self.log[self.writers[id].ticket] == self.writers[id].value
    }

    /// What is known of reader `id`.
    pub open spec fn reader_ok(self, id: nat) -> bool {
        let ticket = self.readers[id].ticket;
        match self.readers[id].op {
            ReadOp::LoadIndex => true,
            ReadOp::LoadStamp { idx } => 0 <= ticket <= self.next_read() && idx
                == self.layout.index_of(ticket),
            ReadOp::LoadWriteIndex { idx } => 0 <= ticket <= self.next_read() && idx
                == self.layout.index_of(ticket),
            ReadOp::Claim { idx } => {
                &&& 0 <= ticket <= self.next_read()
                &&& idx == self.layout.index_of(ticket)
                &&& ticket == self.next_read() ==> ticket < self.next_write()
                    && self.memory.stamps[self.layout.ticket_slot(ticket)] == idx
            },
            ReadOp::Take { idx } => self.read_claimed(id) && idx == self.layout.index_of(ticket),
            ReadOp::Release { idx, value } => self.read_claimed(id) && idx == self.layout.index_of(
                ticket,
            ) && value == self.log[ticket],
            ReadOp::Done(Ok(value)) => self.read_claimed(id) && value == self.log[ticket],
            ReadOp::Done(Err(e)) => e == RingBufferError::Empty,
        }
    }

    /// What is known of writer `id`.
    pub open spec fn writer_ok(self, id: nat) -> bool {
        let ticket = self.writers[id].ticket;
        let v = self.writers[id].value;
        match self.writers[id].op {
            WriteOp::LoadIndex { value } => value == v,
            WriteOp::LoadStamp { idx, value } => 0 <= ticket <= self.next_write() && idx
                == self.layout.index_of(ticket) && value == v,
            WriteOp::LoadReadIndex { idx, value } => 0 <= ticket <= self.next_write() && idx
                == self.layout.index_of(ticket) && value == v,
            WriteOp::Claim { idx, value } => {
                &&& 0 <= ticket <= self.next_write()
                &&& idx == self.layout.index_of(ticket)
                &&& value == v
                &&& ticket == self.next_write() ==> ticket < self.next_read()
                    + self.layout.capacity && self.memory.stamps[self.layout.ticket_slot(ticket)]
                    == idx + 1
            },
            WriteOp::Put { idx, value } => self.write_claimed(id) && idx == self.layout.index_of(
                ticket,
            ) && value == v,
            WriteOp::Publish { idx } => self.write_claimed(id) && idx == self.layout.index_of(
                ticket,
            ),
            WriteOp::Done(Ok(_)) => self.write_claimed(id),
            WriteOp::Done(Err(e)) => e == RingBufferError::Full,
        }
    }

    /// What is known of read ticket `t` below the next one: its reader has the slot, or had it. The
    /// reader is done where a writer claimed the slot again.
    pub open spec fn read_ticket_ok(self, t: int) -> bool {
        let id = self.read_by[t];
        &&& self.readers.contains_key(id)
        &&& self.readers[id].ticket == t
        &&& match self.readers[id].op {
            ReadOp::Take { idx } => true,
            ReadOp::Release { idx, value } => true,
            ReadOp::Done(Ok(value)) => true,
            _ => false,
        }
        &&& t + self.layout.capacity < self.next_write() ==> self.readers[id].op is Done
    }

    /// What is known of write ticket `t` below the next one: its writer has the slot, or had it.
    /// The writer is done where a reader claimed the slot.
    pub open spec fn write_ticket_ok(self, t: int) -> bool {
        let id = self.written_by[t];
        &&& self.writers.contains_key(id)
        &&& self.writers[id].ticket == t
        &&& match self.writers[id].op {
            WriteOp::Put { idx, value } => true,
            WriteOp::Publish { idx } => true,
            WriteOp::Done(Ok(_)) => true,
            _ => false,
        }
        &&& t < self.next_read() ==> self.writers[id].op is Done
    }

    /// What the slot of ticket `t` looks like, for the tickets from the next reader's on, one lap.
    pub open spec fn slot_ok(self, t: int) -> bool {
        let stamp = self.memory.stamps[self.layout.ticket_slot(t)];
        let data = self.memory.data[self.layout.ticket_slot(t)];
        let before = t - self.layout.capacity;
        if t < self.next_write() {
            match self.writers[self.written_by[t]].op {
                WriteOp::Put { idx, value } => stamp == self.layout.index_of(t) + 1 && data is None,
                WriteOp::Publish { idx } => stamp == self.layout.index_of(t) + 1 && data == Some(
                    self.log[t],
                ),
                _ => stamp == self.layout.index_of(t) && data == Some(self.log[t]),
            }
        } else if before >= 0 && self.readers[self.read_by[before]].op is Take {
            stamp == self.layout.index_of(before) && data == Some(self.log[before])
        } else if before >= 0 && self.readers[self.read_by[before]].op is Release {
            stamp == self.layout.index_of(before) && data is None
        } else {
            stamp == self.layout.index_of(t) + 1 && data is None
        }
    }

    /// What holds of the ring at every moment.
    pub open spec fn inv(self) -> bool {
        &&& self.layout.wf()
        &&& self.layout.capacity > 0
        &&& self.memory.fits(self.layout)
        &&& self.next_read() <= self.next_write() <= self.next_read() + self.layout.capacity
        &&& self.log.len() == self.next_write()
        &&& self.memory.read_idx == self.layout.index_of(self.next_read())
        &&& self.memory.write_idx == self.layout.index_of(self.next_write())
        &&& forall|t: int| 0 <= t < self.next_read() ==> #[trigger] self.read_ticket_ok(t)
        &&& forall|t: int| 0 <= t < self.next_write() ==> #[trigger] self.write_ticket_ok(t)
        &&& forall|t: int|
            self.next_read() <= t < self.next_read() + self.layout.capacity
                ==> #[trigger] self.slot_ok(t)
        &&& forall|id: nat| self.readers.contains_key(id) ==> #[trigger] self.reader_ok(id)
        &&& forall|id: nat| self.writers.contains_key(id) ==> #[trigger] self.writer_ok(id)
    }

    /// The invariant holds of a new ring.
    pub proof fn lemma_initial(layout: Layout)
        requires
            layout.wf(),
            layout.capacity > 0,
        ensures
            Self::initial(layout).inv(),
    {
        let ring = Self::initial(layout);
        Memory::<T>::lemma_initial(layout);
        layout.lemma_ticket(0);
        assert forall|t: int| 0 <= t < layout.capacity implies #[trigger] ring.slot_ok(t) by {
            layout.lemma_first_lap(t);
        }
    }

    /// Two tickets less than a lap apart have different slots.
    pub proof fn lemma_slots_differ(self, a: int, b: int)
        requires
            self.layout.wf(),
            self.layout.capacity > 0,
            0 <= a,
            0 <= b,
            a != b,
            a - b < self.layout.capacity,
            b - a < self.layout.capacity,
        ensures
            self.layout.ticket_slot(a) != self.layout.ticket_slot(b),
    {
        if self.layout.ticket_slot(a) == self.layout.ticket_slot(b) {
            if a < b {
                self.layout.lemma_same_slot(a, b);
            } else {
                self.layout.lemma_same_slot(b, a);
            }
        }
    }

    /// A reader that moves on without touching the memory or claiming keeps the invariant.
    proof fn lemma_reader_moves(self, id: nat, reader: Reader<T>)
        requires
            self.inv(),
            !self.readers.contains_key(id) || match self.readers[id].op {
                ReadOp::Take { idx } => false,
                ReadOp::Release { idx, value } => false,
                ReadOp::Done(Ok(value)) => false,
                _ => true,
            },
            (Machine { readers: self.readers.insert(id, reader), ..self }).reader_ok(id),
        ensures
            (Machine { readers: self.readers.insert(id, reader), ..self }).inv(),
    {
        let post = Machine { readers: self.readers.insert(id, reader), ..self };
        assert forall|t: int| 0 <= t < post.next_read() implies #[trigger] post.read_ticket_ok(
            t,
        ) by {
            assert(self.read_ticket_ok(t));
        }
        assert forall|t: int| 0 <= t < post.next_write() implies #[trigger] post.write_ticket_ok(
            t,
        ) by {
            assert(self.write_ticket_ok(t));
        }
        assert forall|t: int|
            post.next_read() <= t < post.next_read()
                + post.layout.capacity implies #[trigger] post.slot_ok(t) by {
            assert(self.slot_ok(t));
            if t >= self.next_write() && t - self.layout.capacity >= 0 {
                assert(self.read_ticket_ok(t - self.layout.capacity));
            }
        }
        assert forall|k: nat| post.readers.contains_key(k) implies #[trigger] post.reader_ok(k) by {
            if k != id {
                assert(self.reader_ok(k));
            }
        }
        assert forall|k: nat| post.writers.contains_key(k) implies #[trigger] post.writer_ok(k) by {
            assert(self.writer_ok(k));
        }
    }

    /// A writer that moves on without touching the memory or claiming keeps the invariant.
    proof fn lemma_writer_moves(self, id: nat, writer: Writer<T>)
        requires
            self.inv(),
            !self.writers.contains_key(id) || match self.writers[id].op {
                WriteOp::Put { idx, value } => false,
                WriteOp::Publish { idx } => false,
                WriteOp::Done(Ok(_)) => false,
                _ => true,
            },
            (Machine { writers: self.writers.insert(id, writer), ..self }).writer_ok(id),
        ensures
            (Machine { writers: self.writers.insert(id, writer), ..self }).inv(),
    {
        let post = Machine { writers: self.writers.insert(id, writer), ..self };
        assert forall|t: int| 0 <= t < post.next_read() implies #[trigger] post.read_ticket_ok(
            t,
        ) by {
            assert(self.read_ticket_ok(t));
        }
        assert forall|t: int| 0 <= t < post.next_write() implies #[trigger] post.write_ticket_ok(
            t,
        ) by {
            assert(self.write_ticket_ok(t));
        }
        assert forall|t: int|
            post.next_read() <= t < post.next_read()
                + post.layout.capacity implies #[trigger] post.slot_ok(t) by {
            assert(self.slot_ok(t));
            if t < self.next_write() {
                assert(self.write_ticket_ok(t));
            }
        }
        assert forall|k: nat| post.readers.contains_key(k) implies #[trigger] post.reader_ok(k) by {
            assert(self.reader_ok(k));
        }
        assert forall|k: nat| post.writers.contains_key(k) implies #[trigger] post.writer_ok(k) by {
            if k != id {
                assert(self.writer_ok(k));
            }
        }
    }

    /// A slot with the next reader's stamp is filled: there is something to read.
    proof fn lemma_filled_for_reader(self)
        requires
            self.inv(),
        ensures
            self.memory.stamps[self.layout.ticket_slot(self.next_read())] == self.memory.read_idx
                ==> self.next_read() < self.next_write(),
    {
        let r = self.next_read();
        let before = r - self.layout.capacity;
        self.layout.lemma_ticket(r);
        assert(self.slot_ok(r));
        if before >= 0 {
            self.layout.lemma_next_lap(before);
        }
    }

    /// A slot with the next writer's stamp is vacant: there is room.
    proof fn lemma_vacant_for_writer(self)
        requires
            self.inv(),
        ensures
            self.memory.stamps[self.layout.ticket_slot(self.next_write())] == self.memory.write_idx
                + 1 ==> self.next_write() < self.next_read() + self.layout.capacity,
    {
        let r = self.next_read();
        self.layout.lemma_ticket(r);
        self.layout.lemma_next_lap(r);
        assert(self.slot_ok(r));
    }

    /// A successful claim of a reader keeps the invariant.
    proof fn lemma_read_claims(self, id: nat)
        requires
            self.inv(),
            self.readers.contains_key(id),
            self.in_limit(Event::StepRead { id }),
            self.readers[id].op matches ReadOp::Claim { idx } && self.memory.read_idx == idx,
        ensures
            self.step_read(id).inv(),
            self.next_read() < self.next_write(),
    {
        let post = self.step_read(id);
        let r = self.next_read();
        let cap = self.layout.capacity;
        assert(self.reader_ok(id));
        self.layout.lemma_same_index(self.readers[id].ticket, r);
        self.layout.lemma_laps();
        self.layout.lemma_ticket(r);
        self.layout.lemma_next_ticket(r);
        self.layout.lemma_ticket(r + 1);
        self.layout.lemma_next_lap(r);
        self.lemma_filled_for_reader();
        assert(self.slot_ok(r));
        assert(self.write_ticket_ok(r));
        assert forall|t: int| 0 <= t < post.next_read() implies #[trigger] post.read_ticket_ok(
            t,
        ) by {
            if t < r {
                assert(self.read_ticket_ok(t));
            }
        }
        assert forall|t: int| 0 <= t < post.next_write() implies #[trigger] post.write_ticket_ok(
            t,
        ) by {
            assert(self.write_ticket_ok(t));
        }
        assert forall|t: int|
            post.next_read() <= t < post.next_read()
                + post.layout.capacity implies #[trigger] post.slot_ok(t) by {
            if t < r + cap {
                assert(self.slot_ok(t));
                if t - cap >= 0 {
                    assert(self.read_ticket_ok(t - cap));
                }
            }
        }
        assert forall|k: nat| post.readers.contains_key(k) implies #[trigger] post.reader_ok(k) by {
            if k != id {
                assert(self.reader_ok(k));
            }
        }
        assert forall|k: nat| post.writers.contains_key(k) implies #[trigger] post.writer_ok(k) by {
            assert(self.writer_ok(k));
        }
    }

    /// Moving a value out of a claimed slot keeps the invariant.
    proof fn lemma_read_takes(self, id: nat)
        requires
            self.inv(),
            self.readers.contains_key(id),
            self.readers[id].op is Take,
        ensures
            self.step_read(id).inv(),
    {
        let post = self.step_read(id);
        let u = self.readers[id].ticket;
        let cap = self.layout.capacity;
        assert(self.reader_ok(id));
        assert(self.read_ticket_ok(u));
        self.layout.lemma_ticket(u);
        self.layout.lemma_next_lap(u);
        assert(self.slot_ok(u + cap));
        assert forall|t: int| 0 <= t < post.next_read() implies #[trigger] post.read_ticket_ok(
            t,
        ) by {
            assert(self.read_ticket_ok(t));
        }
        assert forall|t: int| 0 <= t < post.next_write() implies #[trigger] post.write_ticket_ok(
            t,
        ) by {
            assert(self.write_ticket_ok(t));
        }
        assert forall|t: int|
            post.next_read() <= t < post.next_read()
                + post.layout.capacity implies #[trigger] post.slot_ok(t) by {
            assert(self.slot_ok(t));
            self.layout.lemma_ticket(t);
            if t != u + cap {
                self.lemma_slots_differ(t, u + cap);
            }
            if t >= self.next_write() && t - cap >= 0 {
                assert(self.read_ticket_ok(t - cap));
            }
        }
        assert forall|k: nat| post.readers.contains_key(k) implies #[trigger] post.reader_ok(k) by {
            assert(self.reader_ok(k));
        }
        assert forall|k: nat| post.writers.contains_key(k) implies #[trigger] post.writer_ok(k) by {
            assert(self.writer_ok(k));
        }
    }

    /// Stamping a slot for the writer of the next lap keeps the invariant.
    proof fn lemma_read_releases(self, id: nat)
        requires
            self.inv(),
            self.readers.contains_key(id),
            self.readers[id].op is Release,
        ensures
            self.step_read(id).inv(),
    {
        let post = self.step_read(id);
        let u = self.readers[id].ticket;
        let cap = self.layout.capacity;
        assert(self.reader_ok(id));
        assert(self.read_ticket_ok(u));
        self.layout.lemma_laps();
        self.layout.lemma_ticket(u);
        self.layout.lemma_next_lap(u);
        self.layout.lemma_ticket(u + cap);
        assert(self.slot_ok(u + cap));
        assert forall|t: int| 0 <= t < post.next_read() implies #[trigger] post.read_ticket_ok(
            t,
        ) by {
            assert(self.read_ticket_ok(t));
        }
        assert forall|t: int| 0 <= t < post.next_write() implies #[trigger] post.write_ticket_ok(
            t,
        ) by {
            assert(self.write_ticket_ok(t));
        }
        assert forall|t: int|
            post.next_read() <= t < post.next_read()
                + post.layout.capacity implies #[trigger] post.slot_ok(t) by {
            assert(self.slot_ok(t));
            self.layout.lemma_ticket(t);
            if t != u + cap {
                self.lemma_slots_differ(t, u + cap);
            }
            if t >= self.next_write() && t - cap >= 0 {
                assert(self.read_ticket_ok(t - cap));
            }
        }
        assert forall|k: nat| post.readers.contains_key(k) implies #[trigger] post.reader_ok(k) by {
            assert(self.reader_ok(k));
            let ticket = self.readers[k].ticket;
            if ticket == self.next_read() && self.readers[k].op is Claim {
                self.layout.lemma_ticket(ticket);
                self.lemma_slots_differ(ticket, u + cap);
            }
        }
        assert forall|k: nat| post.writers.contains_key(k) implies #[trigger] post.writer_ok(k) by {
            assert(self.writer_ok(k));
            let ticket = self.writers[k].ticket;
            if ticket == self.next_write() && self.writers[k].op is Claim && ticket != u + cap {
                self.layout.lemma_ticket(ticket);
                self.lemma_slots_differ(ticket, u + cap);
            }
        }
    }

    /// A successful claim of a writer keeps the invariant.
    proof fn lemma_write_claims(self, id: nat)
        requires
            self.inv(),
            self.writers.contains_key(id),
            self.in_limit(Event::StepWrite { id }),
            self.writers[id].op matches WriteOp::Claim { idx, value } && self.memory.write_idx
                == idx,
        ensures
            self.step_write(id).inv(),
            self.next_write() < self.next_read() + self.layout.capacity,
    {
        let post = self.step_write(id);
        let w = self.next_write();
        let cap = self.layout.capacity;
        assert(self.writer_ok(id));
        self.layout.lemma_same_index(self.writers[id].ticket, w);
        self.layout.lemma_laps();
        self.layout.lemma_ticket(w);
        self.layout.lemma_next_ticket(w);
        self.layout.lemma_ticket(w + 1);
        self.lemma_vacant_for_writer();
        assert(self.slot_ok(w));
        if w >= cap {
            self.layout.lemma_next_lap(w - cap);
            assert(self.read_ticket_ok(w - cap));
        }
        assert forall|t: int| 0 <= t < post.next_read() implies #[trigger] post.read_ticket_ok(
            t,
        ) by {
            assert(self.read_ticket_ok(t));
        }
        assert forall|t: int| 0 <= t < post.next_write() implies #[trigger] post.write_ticket_ok(
            t,
        ) by {
            if t < w {
                assert(self.write_ticket_ok(t));
            }
        }
        assert forall|t: int|
            post.next_read() <= t < post.next_read()
                + post.layout.capacity implies #[trigger] post.slot_ok(t) by {
            assert(self.slot_ok(t));
            if t < w {
                assert(self.write_ticket_ok(t));
            }
        }
        assert forall|k: nat| post.readers.contains_key(k) implies #[trigger] post.reader_ok(k) by {
            assert(self.reader_ok(k));
        }
        assert forall|k: nat| post.writers.contains_key(k) implies #[trigger] post.writer_ok(k) by {
            if k != id {
                assert(self.writer_ok(k));
            }
        }
    }

    /// Moving a value into a claimed slot keeps the invariant.
    proof fn lemma_write_puts(self, id: nat)
        requires
            self.inv(),
            self.writers.contains_key(id),
            self.writers[id].op is Put,
        ensures
            self.step_write(id).inv(),
    {
        let post = self.step_write(id);
        let u = self.writers[id].ticket;
        let cap = self.layout.capacity;
        assert(self.writer_ok(id));
        assert(self.write_ticket_ok(u));
        self.layout.lemma_ticket(u);
        assert(self.slot_ok(u));
        assert forall|t: int| 0 <= t < post.next_read() implies #[trigger] post.read_ticket_ok(
            t,
        ) by {
            assert(self.read_ticket_ok(t));
        }
        assert forall|t: int| 0 <= t < post.next_write() implies #[trigger] post.write_ticket_ok(
            t,
        ) by {
            assert(self.write_ticket_ok(t));
        }
        assert forall|t: int|
            post.next_read() <= t < post.next_read()
                + post.layout.capacity implies #[trigger] post.slot_ok(t) by {
            assert(self.slot_ok(t));
            self.layout.lemma_ticket(t);
            if t != u {
                self.lemma_slots_differ(t, u);
            }
            if t < self.next_write() {
                assert(self.write_ticket_ok(t));
            }
        }
        assert forall|k: nat| post.readers.contains_key(k) implies #[trigger] post.reader_ok(k) by {
            assert(self.reader_ok(k));
        }
        assert forall|k: nat| post.writers.contains_key(k) implies #[trigger] post.writer_ok(k) by {
            assert(self.writer_ok(k));
        }
    }

    /// Stamping a slot for the reader of this lap keeps the invariant.
    proof fn lemma_write_publishes(self, id: nat)
        requires
            self.inv(),
            self.writers.contains_key(id),
            self.writers[id].op is Publish,
        ensures
            self.step_write(id).inv(),
    {
        let post = self.step_write(id);
        let u = self.writers[id].ticket;
        let cap = self.layout.capacity;
        assert(self.writer_ok(id));
        assert(self.write_ticket_ok(u));
        self.layout.lemma_ticket(u);
        assert(self.slot_ok(u));
        assert forall|t: int| 0 <= t < post.next_read() implies #[trigger] post.read_ticket_ok(
            t,
        ) by {
            assert(self.read_ticket_ok(t));
        }
        assert forall|t: int| 0 <= t < post.next_write() implies #[trigger] post.write_ticket_ok(
            t,
        ) by {
            assert(self.write_ticket_ok(t));
        }
        assert forall|t: int|
            post.next_read() <= t < post.next_read()
                + post.layout.capacity implies #[trigger] post.slot_ok(t) by {
            assert(self.slot_ok(t));
            self.layout.lemma_ticket(t);
            if t != u {
                self.lemma_slots_differ(t, u);
            }
            if t < self.next_write() {
                assert(self.write_ticket_ok(t));
            }
        }
        assert forall|k: nat| post.readers.contains_key(k) implies #[trigger] post.reader_ok(k) by {
            assert(self.reader_ok(k));
            let ticket = self.readers[k].ticket;
            if ticket == self.next_read() && self.readers[k].op is Claim && ticket != u {
                self.layout.lemma_ticket(ticket);
                self.lemma_slots_differ(ticket, u);
            }
        }
        assert forall|k: nat| post.writers.contains_key(k) implies #[trigger] post.writer_ok(k) by {
            assert(self.writer_ok(k));
            let ticket = self.writers[k].ticket;
            if ticket == self.next_write() && self.writers[k].op is Claim {
                self.layout.lemma_ticket(ticket);
                self.lemma_slots_differ(ticket, u);
            }
        }
    }

    /// Every access of a reader keeps the invariant.
    proof fn lemma_step_read(self, id: nat)
        requires
            self.inv(),
            self.enabled(Event::StepRead { id }),
        ensures
            self.step_read(id).inv(),
    {
        let post = self.step_read(id);
        let ticket = self.readers[id].ticket;
        assert(self.reader_ok(id));
        match self.readers[id].op {
            ReadOp::LoadIndex => {
                self.lemma_reader_moves(id, post.readers[id]);
            },
            ReadOp::LoadStamp { idx } => {
                self.layout.lemma_ticket(ticket);
                self.lemma_filled_for_reader();
                self.lemma_reader_moves(id, post.readers[id]);
            },
            ReadOp::LoadWriteIndex { idx } => {
                self.lemma_reader_moves(id, post.readers[id]);
            },
            ReadOp::Claim { idx } => {
                if self.memory.read_idx == idx {
                    self.lemma_read_claims(id);
                } else {
                    self.lemma_reader_moves(id, post.readers[id]);
                }
            },
            ReadOp::Take { idx } => {
                self.lemma_read_takes(id);
            },
            ReadOp::Release { idx, value } => {
                self.lemma_read_releases(id);
            },
            ReadOp::Done(result) => {
                assert(post.readers =~= self.readers);
            },
        }
    }

    /// Every access of a writer keeps the invariant.
    proof fn lemma_step_write(self, id: nat)
        requires
            self.inv(),
            self.enabled(Event::StepWrite { id }),
        ensures
            self.step_write(id).inv(),
    {
        let post = self.step_write(id);
        let ticket = self.writers[id].ticket;
        assert(self.writer_ok(id));
        match self.writers[id].op {
            WriteOp::LoadIndex { value } => {
                self.lemma_writer_moves(id, post.writers[id]);
            },
            WriteOp::LoadStamp { idx, value } => {
                self.layout.lemma_ticket(ticket);
                self.lemma_vacant_for_writer();
                self.lemma_writer_moves(id, post.writers[id]);
            },
            WriteOp::LoadReadIndex { idx, value } => {
                self.lemma_writer_moves(id, post.writers[id]);
            },
            WriteOp::Claim { idx, value } => {
                if self.memory.write_idx == idx {
                    self.lemma_write_claims(id);
                } else {
                    self.lemma_writer_moves(id, post.writers[id]);
                }
            },
            WriteOp::Put { idx, value } => {
                self.lemma_write_puts(id);
            },
            WriteOp::Publish { idx } => {
                self.lemma_write_publishes(id);
            },
            WriteOp::Done(result) => {
                assert(post.writers =~= self.writers);
            },
        }
    }

    /// Every event keeps the invariant.
    pub proof fn lemma_event(self, event: Event<T>)
        requires
            self.inv(),
            self.enabled(event),
        ensures
            self.after(event).inv(),
    {
        let post = self.after(event);
        match event {
            Event::BeginRead { id } => {
                self.lemma_reader_moves(id, post.readers[id]);
            },
            Event::BeginWrite { id, value } => {
                self.lemma_writer_moves(id, post.writers[id]);
            },
            Event::StepRead { id } => {
                self.lemma_step_read(id);
            },
            Event::StepWrite { id } => {
                self.lemma_step_write(id);
            },
            Event::LoseRead { id } => {
                self.lemma_reader_moves(id, post.readers[id]);
            },
            Event::LoseWrite { id } => {
                self.lemma_writer_moves(id, post.writers[id]);
            },
        }
    }
}

} // verus!
