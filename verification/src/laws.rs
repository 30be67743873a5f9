use crate::batches::{lesser, only_reads, only_writes};
use crate::error::RingBufferError;
use crate::layout::{word_range, Layout};
use crate::memory::Memory;
use crate::ops::{Access, ReadOp, Word, WriteOp};
use crate::protocol::{Event, Machine};
use crate::ring::{reads, writes, RingBuffer};
use vstd::prelude::*;

verus! {

/// A ring never holds more items than it has slots.
pub proof fn law_within_capacity<T>(rb: RingBuffer<T>)
    requires
        rb.wf(),
    ensures
        rb@.len() <= rb.capacity(),
{
    rb.lemma_view();
}

/// A write is refused exactly when the ring is full, a read exactly when it is empty. What is
/// refused changes nothing.
pub proof fn law_refusals<T>(
    capacity: nat,
    items: Seq<T>,
    v: T,
    written: Result<(), RingBufferError>,
    after_write: Seq<T>,
    read: Result<T, RingBufferError>,
    after_read: Seq<T>,
)
    requires
        items.len() <= capacity,
        writes(capacity, items, v, written, after_write),
        reads(items, read, after_read),
    ensures
        written is Err <==> items.len() == capacity,
        written is Err ==> written == Err::<(), RingBufferError>(RingBufferError::Full)
            && after_write == items,
        read is Err <==> items.len() == 0,
        read is Err ==> read == Err::<T, RingBufferError>(RingBufferError::Empty) && after_read
            == items,
{
}

/// Values written one after the other, as long as there is room, are all accepted and follow the
/// items that were there.
pub proof fn law_writes_append<T>(
    capacity: nat,
    values: Seq<T>,
    states: Seq<Seq<T>>,
    results: Seq<Result<(), RingBufferError>>,
)
    requires
        states.len() == values.len() + 1,
        results.len() == values.len(),
        forall|i: int|
            0 <= i < values.len() ==> writes(
                capacity,
                states[i],
                #[trigger] values[i],
                results[i],
                states[i + 1],
            ),
        states[0].len() + values.len() <= capacity,
    ensures
        forall|i: int| 0 <= i < values.len() ==> (#[trigger] results[i]) is Ok,
        states.last() == states[0] + values,
    decreases values.len(),
{
    if values.len() > 0 {
        let n = values.len() - 1;
        assert forall|i: int| 0 <= i < n implies writes(
            capacity,
            states.drop_last()[i],
            #[trigger] values.drop_last()[i],
            results.drop_last()[i],
            states.drop_last()[i + 1],
        ) by {
            assert(values.drop_last()[i] == values[i]);
        }
        law_writes_append(capacity, values.drop_last(), states.drop_last(), results.drop_last());
        assert forall|i: int| 0 <= i < values.len() implies (#[trigger] results[i]) is Ok by {
            if i < n {
                assert(results.drop_last()[i] is Ok);
            } else {
                assert(writes(capacity, states[n], values[n], results[n], states[n + 1]));
            }
        }
        assert(writes(capacity, states[n], values[n], results[n], states[n + 1]));
        assert(values =~= values.drop_last().push(values[n]));
        assert(states.last() =~= states[0] + values);
    } else {
        assert(states.last() =~= states[0] + values);
    }
}

/// Reads one after the other, no more than there are items, return the items in their order and
/// leave the rest.
pub proof fn law_reads_in_order<T>(
    states: Seq<Seq<T>>,
    results: Seq<Result<T, RingBufferError>>,
)
    requires
        states.len() == results.len() + 1,
        results.len() <= states[0].len(),
        forall|i: int|
            0 <= i < results.len() ==> reads(states[i], #[trigger] results[i], states[i + 1]),
    ensures
        forall|i: int|
            0 <= i < results.len() ==> #[trigger] results[i] == Ok::<T, RingBufferError>(
                states[0][i],
            ),
        states.last() == states[0].skip(results.len() as int),
    decreases results.len(),
{
    if results.len() > 0 {
        let n = results.len() - 1;
        assert forall|i: int| 0 <= i < n implies reads(
            states.drop_last()[i],
            #[trigger] results.drop_last()[i],
            states.drop_last()[i + 1],
        ) by {
            assert(results.drop_last()[i] == results[i]);
        }
        law_reads_in_order(states.drop_last(), results.drop_last());
        assert(reads(states[n], results[n], states[n + 1]));
        assert(states[n] == states[0].skip(n as int));
        assert forall|i: int| 0 <= i < results.len() implies #[trigger] results[i] == Ok::<
            T,
            RingBufferError,
        >(states[0][i]) by {
            if i < n {
                assert(results.drop_last()[i] == results[i]);
            }
        }
        assert(states.last() =~= states[0].skip(results.len() as int));
    } else {
        assert(states.last() =~= states[0].skip(0));
    }
}

/// What was written comes back: when a ring with nothing in it is filled with values and read as
/// often, the reads return the values in the order of the writes, and nothing is left.
pub proof fn law_read_returns_what_was_written<T>(
    capacity: nat,
    values: Seq<T>,
    filling: Seq<Seq<T>>,
    written: Seq<Result<(), RingBufferError>>,
    draining: Seq<Seq<T>>,
    read: Seq<Result<T, RingBufferError>>,
)
    requires
        values.len() <= capacity,
        filling.len() == values.len() + 1,
        written.len() == values.len(),
        filling[0].len() == 0,
        forall|i: int|
            0 <= i < values.len() ==> writes(
                capacity,
                filling[i],
                #[trigger] values[i],
                written[i],
                filling[i + 1],
            ),
        draining.len() == values.len() + 1,
        read.len() == values.len(),
        draining[0] == filling.last(),
        forall|i: int|
            0 <= i < read.len() ==> reads(draining[i], #[trigger] read[i], draining[i + 1]),
    ensures
        forall|i: int| 0 <= i < values.len() ==> (#[trigger] written[i]) is Ok,
        forall|i: int|
            0 <= i < values.len() ==> #[trigger] read[i] == Ok::<T, RingBufferError>(values[i]),
        draining.last().len() == 0,
{
    law_writes_append(capacity, values, filling, written);
    assert(filling[0] + values =~= values);
    law_reads_in_order(draining, read);
}

/// What an access finds in a memory of the right shape is among the outcomes that a shared ring
/// allows, so what a shared ring promises of its steps covers every run of the machine.
pub proof fn law_steps_are_allowed<T>(
    layout: Layout,
    memory: Memory<T>,
    reader: ReadOp<T>,
    writer: WriteOp<T>,
)
    requires
        layout.wf(),
        layout.capacity > 0,
        memory.fits(layout),
        reader.fits(layout),
        writer.fits(layout),
    ensures
        reader.can_become(layout, reader.step(layout, memory).1),
        writer.can_become(layout, writer.step(layout, memory).1),
{
}

/// A step of an operation is its next access and nothing else: a load finds the word of the memory
/// and decides by it, a swap replaces the word where it is the expected one, a take and a put move
/// the value of one cell, a store replaces one stamp.
pub proof fn law_steps_are_their_accesses<T>(
    layout: Layout,
    m: Memory<T>,
    reader: ReadOp<T>,
    writer: WriteOp<T>,
)
    requires
        layout.wf(),
        m.fits(layout),
        reader.fits(layout),
        writer.fits(layout),
    ensures
        match reader.next_access(layout) {
            Access::Load { word } => reader.step(layout, m) == (
                m,
                reader.after_load(word.value_in(m)),
            ),
            Access::Swap { word, current, new } => reader.step(layout, m) == if word.value_in(m)
                == current {
                (word.replaced_in(m, new), ReadOp::<T>::after_claim(current, true))
            } else {
                (m, ReadOp::<T>::after_claim(current, false))
            },
            Access::Take { slot } => reader matches ReadOp::Take { idx } && reader.step(layout, m)
                == (
                Memory { data: m.data.update(slot as int, None), ..m },
                ReadOp::Release { idx, value: m.data[slot as int]->0 },
            ),
            Access::Put { slot } => false,
            Access::Store { slot, stamp } => reader matches ReadOp::Release { idx, value }
                && reader.step(layout, m) == (
                (Word::Stamp { slot }).replaced_in(m, stamp),
                ReadOp::Done(Ok(value)),
            ),
            Access::Nothing => reader is Done && reader.step(layout, m) == (m, reader),
        },
        match writer.next_access(layout) {
            Access::Load { word } => writer.step(layout, m) == (
                m,
                writer.after_load(layout, word.value_in(m)),
            ),
            Access::Swap { word, current, new } => writer matches WriteOp::Claim { idx, value }
                && writer.step(layout, m) == if word.value_in(m) == current {
                (word.replaced_in(m, new), WriteOp::<T>::after_claim(idx, value, true))
            } else {
                (m, WriteOp::<T>::after_claim(idx, value, false))
            },
            Access::Take { slot } => false,
            Access::Put { slot } => writer matches WriteOp::Put { idx, value } && writer.step(
                layout,
                m,
            ) == (
                Memory { data: m.data.update(slot as int, Some(value)), ..m },
                WriteOp::<T>::Publish { idx },
            ),
            Access::Store { slot, stamp } => writer matches WriteOp::Publish { idx }
                && writer.step(layout, m) == (
                (Word::Stamp { slot }).replaced_in(m, stamp),
                WriteOp::<T>::Done(Ok(())),
            ),
            Access::Nothing => writer is Done && writer.step(layout, m) == (m, writer),
        },
{
    layout.lemma_laps();
    match reader {
        ReadOp::LoadStamp { idx } => layout.lemma_index(idx as int),
        ReadOp::Claim { idx } => layout.lemma_index(idx as int),
        ReadOp::Take { idx } => layout.lemma_index(idx as int),
        ReadOp::Release { idx, value } => layout.lemma_index(idx as int),
        _ => {},
    }
    match writer {
        WriteOp::LoadStamp { idx, value } => layout.lemma_index(idx as int),
        WriteOp::Claim { idx, value } => layout.lemma_index(idx as int),
        WriteOp::Put { idx, value } => layout.lemma_index(idx as int),
        WriteOp::Publish { idx } => layout.lemma_index(idx as int),
        _ => {},
    }
}

impl<T> Machine<T> {
    /// In every run, without exception, a value that a read returned was stored by a write that
    /// was started with this very value.
    pub proof fn law_every_value_read_was_stored(
        layout: Layout,
        events: Seq<Event<T>>,
        id: nat,
        v: T,
    )
        requires
            layout.wf(),
            layout.capacity > 0,
            Self::initial(layout).can_run(events),
            Self::initial(layout).run(events).readers.contains_key(id),
            Self::initial(layout).run(events).readers[id].op == ReadOp::Done(
                Ok::<T, RingBufferError>(v),
            ),
        ensures
            Self::initial(layout).run(events).readers[id].source matches Some(k)
                && Self::initial(layout).run(events).stored_by(k, v),
    {
        Self::lemma_initial_traced(layout);
        Self::initial(layout).law_values_are_traced(events);
        assert(Self::initial(layout).run(events).reader_traced(id));
    }

    /// In every run, without exception, no two reads return the value of the same write.
    pub proof fn law_every_value_is_read_at_most_once(
        layout: Layout,
        events: Seq<Event<T>>,
        a: nat,
        b: nat,
    )
        requires
            layout.wf(),
            layout.capacity > 0,
            Self::initial(layout).can_run(events),
            Self::initial(layout).run(events).readers.contains_key(a),
            Self::initial(layout).run(events).readers.contains_key(b),
            a != b,
            Self::initial(layout).run(events).readers[a].op matches ReadOp::Done(Ok(v)),
            Self::initial(layout).run(events).readers[b].op matches ReadOp::Done(Ok(v)),
        ensures
            Self::initial(layout).run(events).readers[a].source is Some,
            Self::initial(layout).run(events).readers[b].source is Some,
            Self::initial(layout).run(events).readers[a].source != Self::initial(layout).run(
                events,
            ).readers[b].source,
    {
        Self::lemma_initial_traced(layout);
        Self::initial(layout).law_values_are_traced(events);
        assert(Self::initial(layout).run(events).reader_traced(a));
        assert(Self::initial(layout).run(events).reader_traced(b));
    }

    /// From any moment on, values stay traced to their writes.
    pub proof fn law_values_are_traced(self, events: Seq<Event<T>>)
        requires
            self.traced(),
            self.can_run(events),
        ensures
            self.run(events).traced(),
        decreases events.len(),
    {
        if events.len() > 0 {
            self.lemma_event_traced(events[0]);
            self.after(events[0]).law_values_are_traced(events.drop_first());
        }
    }

    /// The limit of the machine word is out of reach for every run of up to half as many events as
    /// a word has values.
    pub proof fn law_limit_is_half_the_word(layout: Layout, events: Seq<Event<T>>)
        requires
            layout.wf(),
            layout.capacity > 0,
            Self::initial(layout).can_run(events),
            2 * events.len() <= word_range(),
        ensures
            Self::initial(layout).stays_in_limit(events),
    {
        layout.lemma_laps();
        Self::lemma_initial(layout);
        Self::initial(layout).lemma_few_claims(events);
    }

    /// Few events make few claims.
    proof fn lemma_few_claims(self, events: Seq<Event<T>>)
        requires
            self.inv(),
            self.can_run(events),
            self.next_read() + events.len() <= self.layout.period(),
            self.next_write() + events.len() <= self.layout.period(),
        ensures
            self.stays_in_limit(events),
        decreases events.len(),
    {
        if events.len() > 0 {
            let event = events[0];
            match event {
                Event::StepRead { id } => {
                    assert(self.reader_ok(id));
                },
                Event::StepWrite { id } => {
                    assert(self.writer_ok(id));
                },
                _ => {},
            }
            self.lemma_event(event);
            self.after(event).lemma_few_claims(events.drop_first());
        }
    }

    /// No write replaces a value: in every run within the limit of the machine word, a value that
    /// is in a slot stays there until the reader that claimed it takes it out.
    pub proof fn law_nothing_is_overwritten(
        layout: Layout,
        events: Seq<Event<T>>,
        event: Event<T>,
        s: int,
    )
        requires
            layout.wf(),
            layout.capacity > 0,
            Self::initial(layout).can_run(events.push(event)),
            Self::initial(layout).stays_in_limit(events.push(event)),
            0 <= s < layout.capacity,
            Self::initial(layout).run(events).memory.data[s] is Some,
        ensures
            ({
                let ring = Self::initial(layout).run(events);
                let after = ring.after(event);
                ||| after.memory.data[s] == ring.memory.data[s]
                ||| event matches Event::StepRead { id } && ring.readers[id].op matches ReadOp::Take {
                    idx,
                } && layout.slot_of(idx as int) == s && after.readers[id].op == (ReadOp::Release {
                    idx,
                    value: ring.memory.data[s]->0,
                })
            }),
    {
        Self::initial(layout).lemma_run_splits(events, event);
        Self::law_invariant_always_holds(layout, events);
        let ring = Self::initial(layout).run(events);
        match event {
            Event::StepRead { id } => {
                ring.law_reader_finds_its_value(id);
            },
            Event::StepWrite { id } => {
                ring.law_writer_finds_room(id);
            },
            _ => {},
        }
    }

    /// A run with one more event is the run and then the event.
    proof fn lemma_run_splits(self, events: Seq<Event<T>>, event: Event<T>)
        requires
            self.can_run(events.push(event)),
            self.stays_in_limit(events.push(event)),
        ensures
            self.can_run(events),
            self.stays_in_limit(events),
            self.run(events).enabled(event),
            self.run(events.push(event)) == self.run(events).after(event),
            self.run(events).layout == self.layout,
        decreases events.len(),
    {
        let all = events.push(event);
        if events.len() > 0 {
            assert(all[0] == events[0]);
            assert(all.drop_first() =~= events.drop_first().push(event));
            self.after(events[0]).lemma_run_splits(events.drop_first(), event);
        } else {
            assert(all[0] == event);
            assert(all.drop_first() =~= Seq::empty());
            assert(self.after(event).run(all.drop_first()) == self.after(event));
        }
    }

    /// No accepted value is lost: at any moment of any run within the limit of the machine word,
    /// the value of an accepted write is in its slot, or with the one reader that claimed it: in
    /// the cell that only this reader takes from, in the reader's hands, or returned.
    pub proof fn law_nothing_is_lost(layout: Layout, events: Seq<Event<T>>, id: nat)
        requires
            layout.wf(),
            layout.capacity > 0,
            Self::initial(layout).can_run(events),
            Self::initial(layout).stays_in_limit(events),
            Self::initial(layout).run(events).writers.contains_key(id),
            Self::initial(layout).run(events).writers[id].op matches WriteOp::Done(Ok(_)),
        ensures
            ({
                let ring = Self::initial(layout).run(events);
                let ticket = ring.writers[id].ticket;
                let v = ring.writers[id].value;
                let cell = ring.memory.data[ring.layout.ticket_slot(ticket)];
                if ring.next_read() <= ticket {
                    cell == Some(v)
                } else {
                    match ring.readers[ring.read_by[ticket]].op {
                        ReadOp::Take { idx } => cell == Some(v),
                        ReadOp::Release { idx, value } => value == v,
                        ReadOp::Done(result) => result == Ok::<T, RingBufferError>(v),
                        _ => false,
                    }
                }
            }),
    {
        Self::law_invariant_always_holds(layout, events);
        let ring = Self::initial(layout).run(events);
        assert(ring.writer_ok(id));
        let ticket = ring.writers[id].ticket;
        assert(ring.write_ticket_ok(ticket));
        if ring.next_read() <= ticket {
            assert(ring.slot_ok(ticket));
        } else {
            assert(ring.read_ticket_ok(ticket));
            let reader = ring.read_by[ticket];
            assert(ring.reader_ok(reader));
            if ring.readers[reader].op is Take {
                ring.law_reader_finds_its_value(reader);
                ring.layout.lemma_ticket(ticket);
            }
        }
    }

    /// When nobody writes, of the reads that are begun as many return a value as there are items
    /// for: the lesser of the number of reads and the number of items. They return the oldest items,
    /// each item once, in the order of their claims; the others report `Empty`, and what nobody
    /// returned stays in the ring.
    pub proof fn law_reads_are_served(self, events: Seq<Event<T>>)
        requires
            self.inv(),
            self.reads_are_over(),
            self.can_run(events),
            only_reads(events),
            self.run(events).reads_are_over(),
        ensures
            self.run(events).served_since(self).len() == lesser(
                self.run(events).readers_since(self).len(),
                self.contents().len(),
            ),
            self.run(events).read_claims_since(self).no_duplicates(),
            self.run(events).read_claims_since(self).to_set() == self.run(events).served_since(
                self,
            ),
            forall|i: int|
                0 <= i < self.run(events).read_claims_since(self).len() ==> self.run(
                    events,
                ).readers[#[trigger] self.run(events).read_claims_since(self)[i]].op
                    == ReadOp::Done(Ok::<T, RingBufferError>(self.contents()[i])),
            forall|id: nat| #[trigger]
                self.run(events).readers_since(self).contains(id) && !self.run(
                    events,
                ).served_since(self).contains(id) ==> self.run(events).readers[id].op
                    == ReadOp::Done(Err::<T, RingBufferError>(RingBufferError::Empty)),
            self.run(events).contents() == self.contents().skip(
                self.run(events).served_since(self).len() as int,
            ),
    {
        assert(self.readers_since(self) =~= Set::empty());
        self.lemma_only_read_run(self, events);
        self.run(events).lemma_served(self);
    }

    /// When nobody reads, of the writes that are begun as many are accepted as there is room for:
    /// the lesser of the number of writes and the number of vacant places, which on an empty ring
    /// is the capacity. The ring then holds the earlier items and after them the accepted values, in
    /// the order of their claims, and nothing else; the other writes report `Full`.
    pub proof fn law_writes_are_accepted(self, events: Seq<Event<T>>)
        requires
            self.inv(),
            self.writes_are_over(),
            self.can_run(events),
            only_writes(events),
            self.run(events).writes_are_over(),
        ensures
            self.run(events).accepted_since(self).len() == lesser(
                self.run(events).writers_since(self).len(),
                (self.layout.capacity - self.contents().len()) as nat,
            ),
            self.run(events).write_claims_since(self).no_duplicates(),
            self.run(events).write_claims_since(self).to_set() == self.run(
                events,
            ).accepted_since(self),
            self.run(events).contents() == self.contents() + self.run(events).write_claims_since(
                self,
            ).map_values(|id: nat| self.run(events).writers[id].value),
            forall|id: nat| #[trigger]
                self.run(events).writers_since(self).contains(id) && !self.run(
                    events,
                ).accepted_since(self).contains(id) ==> self.run(events).writers[id].op
                    == WriteOp::<T>::Done(Err(RingBufferError::Full)),
    {
        assert(self.writers_since(self) =~= Set::empty());
        assert(self.log.subrange(0, self.next_write()) =~= self.log);
        self.lemma_only_written_run(self, events);
        self.run(events).lemma_accepted(self);
    }

    /// Whatever order readers and writers take their turns in, the ring keeps its invariant from
    /// the start on, within the limit of the machine word.
    pub proof fn law_invariant_always_holds(layout: Layout, events: Seq<Event<T>>)
        requires
            layout.wf(),
            layout.capacity > 0,
            Self::initial(layout).can_run(events),
            Self::initial(layout).stays_in_limit(events),
        ensures
            Self::initial(layout).run(events).inv(),
    {
        Self::lemma_initial(layout);
        Self::initial(layout).law_invariant_is_kept(events);
    }

    /// From any moment on, the invariant is kept.
    pub proof fn law_invariant_is_kept(self, events: Seq<Event<T>>)
        requires
            self.inv(),
            self.can_run(events),
            self.stays_in_limit(events),
        ensures
            self.run(events).inv(),
        decreases events.len(),
    {
        if events.len() > 0 {
            self.lemma_event(events[0]);
            self.after(events[0]).law_invariant_is_kept(events.drop_first());
        }
    }

    /// To everybody who shares it, the ring is a queue with room for `capacity` items: a write
    /// adds its value at the end at the moment of its claim, a read removes the first item at the
    /// moment of its claim, and nothing else changes the queue. The number of slots never changes.
    pub proof fn law_ring_is_a_queue(self, event: Event<T>)
        requires
            self.inv(),
            self.enabled(event),
        ensures
            self.contents().len() <= self.layout.capacity,
            self.after(event).layout == self.layout,
            match event {
                Event::StepRead { id } => {
                    let claims = self.readers[id].op is Claim && self.after(
                        event,
                    ).readers[id].op is Take;
                    if claims {
                        &&& self.contents().len() > 0
                        &&& self.after(event).contents() == self.contents().drop_first()
                        &&& self.log[self.after(event).readers[id].ticket] == self.contents()[0]
                    } else {
                        self.after(event).contents() == self.contents()
                    }
                },
                Event::StepWrite { id } => {
                    let claims = self.writers[id].op is Claim && self.after(
                        event,
                    ).writers[id].op is Put;
                    if claims {
                        &&& self.contents().len() < self.layout.capacity
                        &&& self.after(event).contents() == self.contents().push(
                            self.writers[id].value,
                        )
                    } else {
                        self.after(event).contents() == self.contents()
                    }
                },
                _ => self.after(event).contents() == self.contents(),
            },
    {
        self.lemma_event(event);
        match event {
            Event::StepRead { id } => {
                if self.readers[id].op is Claim && self.after(event).readers[id].op is Take {
                    assert(self.after(event).contents() =~= self.contents().drop_first());
                }
            },
            Event::StepWrite { id } => {
                if self.writers[id].op is Claim && self.after(event).writers[id].op is Put {
                    assert(self.after(event).contents() =~= self.contents().push(
                        self.writers[id].value,
                    ));
                }
            },
            _ => {},
        }
    }

    /// A value that a read returned is the whole value of the one write with the same ticket, and
    /// that write was accepted. Tickets are the order of the claims on both sides, so the values
    /// come out in the order in which they went in.
    pub proof fn law_read_returns_the_written_value(self, id: nat, v: T)
        requires
            self.inv(),
            self.readers.contains_key(id),
            self.readers[id].op == ReadOp::Done(Ok::<T, RingBufferError>(v)),
        ensures
            ({
                let ticket = self.readers[id].ticket;
                let writer = self.written_by[ticket];
                &&& 0 <= ticket < self.next_read() <= self.next_write()
                &&& self.writers.contains_key(writer)
                &&& self.writers[writer].ticket == ticket
                &&& self.writers[writer].op matches WriteOp::Done(Ok(_))
                &&& self.writers[writer].value == v
            }),
    {
        assert(self.reader_ok(id));
        let ticket = self.readers[id].ticket;
        assert(self.write_ticket_ok(ticket));
        assert(self.writer_ok(self.written_by[ticket]));
    }

    /// No two reads return the same ticket's value.
    pub proof fn law_no_value_is_read_twice(self, a: nat, b: nat)
        requires
            self.inv(),
            self.readers.contains_key(a),
            self.readers.contains_key(b),
            a != b,
            self.readers[a].op matches ReadOp::Done(Ok(v)),
            self.readers[b].op matches ReadOp::Done(Ok(v)),
        ensures
            self.readers[a].ticket != self.readers[b].ticket,
    {
        assert(self.reader_ok(a));
        assert(self.reader_ok(b));
    }

    /// Nothing that was accepted is lost: when every operation is over and the ring is empty, each
    /// accepted write's value was returned by the read with its ticket.
    pub proof fn law_no_value_is_lost(self, id: nat)
        requires
            self.inv(),
            forall|k: nat| #[trigger] self.readers.contains_key(k) ==> self.readers[k].op is Done,
            self.contents().len() == 0,
            self.writers.contains_key(id),
            self.writers[id].op matches WriteOp::Done(Ok(_)),
        ensures
            ({
                let ticket = self.writers[id].ticket;
                let reader = self.read_by[ticket];
                &&& 0 <= ticket < self.next_read()
                &&& self.readers.contains_key(reader)
                &&& self.readers[reader].ticket == ticket
                &&& self.readers[reader].op == ReadOp::Done(
                    Ok::<T, RingBufferError>(self.writers[id].value),
                )
            }),
    {
        assert(self.writer_ok(id));
        let ticket = self.writers[id].ticket;
        assert(self.next_read() == self.next_write());
        assert(self.read_ticket_ok(ticket));
        assert(self.reader_ok(self.read_by[ticket]));
    }

    /// When every operation is over, the ring is at rest, with the queue's items in it.
    pub proof fn law_comes_to_rest(self)
        requires
            self.inv(),
            forall|k: nat| #[trigger] self.readers.contains_key(k) ==> self.readers[k].op is Done,
            forall|k: nat| #[trigger] self.writers.contains_key(k) ==> self.writers[k].op is Done,
        ensures
            self.memory.at_rest(self.layout),
            self.memory.contents(self.layout) == self.contents(),
    {
        let r = self.next_read();
        let n = self.next_write() - r;
        let cap = self.layout.capacity;
        assert forall|t: int| r <= t < r + n implies #[trigger] self.memory.filled(
            self.layout,
            t,
        ) && self.memory.value_at(self.layout, t) == self.log[t] by {
            assert(self.slot_ok(t));
            assert(self.write_ticket_ok(t));
        }
        assert forall|t: int| r + n <= t < r + cap implies #[trigger] self.memory.vacant(
            self.layout,
            t,
        ) by {
            assert(self.slot_ok(t));
            if t - cap >= 0 {
                assert(self.read_ticket_ok(t - cap));
            }
        }
        self.memory.lemma_renumber(self.layout, r, n);
        assert forall|k: int| 0 <= k < n implies self.memory.items(self.layout, r, n)[k]
            == self.contents()[k] by {
            assert(self.memory.filled(self.layout, r + k));
        }
        assert(self.memory.items(self.layout, r, n) =~= self.contents());
    }

    /// A reader that may access its slot's cell has the slot to itself: no other reader has it.
    pub proof fn law_readers_do_not_collide(self, a: nat, b: nat)
        requires
            self.inv(),
            self.readers.contains_key(a),
            self.readers.contains_key(b),
            a != b,
            self.readers[a].op is Take || self.readers[a].op is Release,
            self.readers[b].op is Take || self.readers[b].op is Release,
        ensures
            self.layout.ticket_slot(self.readers[a].ticket) != self.layout.ticket_slot(
                self.readers[b].ticket,
            ),
    {
        assert(self.reader_ok(a));
        assert(self.reader_ok(b));
        assert(self.read_ticket_ok(self.readers[a].ticket));
        assert(self.read_ticket_ok(self.readers[b].ticket));
        self.lemma_slots_differ(self.readers[a].ticket, self.readers[b].ticket);
    }

    /// No two writers have the same slot.
    pub proof fn law_writers_do_not_collide(self, a: nat, b: nat)
        requires
            self.inv(),
            self.writers.contains_key(a),
            self.writers.contains_key(b),
            a != b,
            self.writers[a].op is Put || self.writers[a].op is Publish,
            self.writers[b].op is Put || self.writers[b].op is Publish,
        ensures
            self.layout.ticket_slot(self.writers[a].ticket) != self.layout.ticket_slot(
                self.writers[b].ticket,
            ),
    {
        assert(self.writer_ok(a));
        assert(self.writer_ok(b));
        assert(self.write_ticket_ok(self.writers[a].ticket));
        assert(self.write_ticket_ok(self.writers[b].ticket));
        self.lemma_slots_differ(self.writers[a].ticket, self.writers[b].ticket);
    }

    /// No reader and writer have the same slot.
    pub proof fn law_reader_and_writer_do_not_collide(self, reader: nat, writer: nat)
        requires
            self.inv(),
            self.readers.contains_key(reader),
            self.writers.contains_key(writer),
            self.readers[reader].op is Take || self.readers[reader].op is Release,
            self.writers[writer].op is Put || self.writers[writer].op is Publish,
        ensures
            self.layout.ticket_slot(self.readers[reader].ticket) != self.layout.ticket_slot(
                self.writers[writer].ticket,
            ),
    {
        assert(self.reader_ok(reader));
        assert(self.writer_ok(writer));
        assert(self.read_ticket_ok(self.readers[reader].ticket));
        assert(self.write_ticket_ok(self.writers[writer].ticket));
        self.lemma_slots_differ(self.readers[reader].ticket, self.writers[writer].ticket);
    }

    /// A reader that takes a value finds the value of its ticket in the cell: nothing that is not
    /// there is read. Its next access is possible whatever the others did.
    pub proof fn law_reader_finds_its_value(self, id: nat)
        requires
            self.inv(),
            self.readers.contains_key(id),
        ensures
            self.readers[id].op.fits(self.layout),
            self.readers[id].op.ready(self.layout, self.memory),
            self.readers[id].op matches ReadOp::Take { idx } ==> self.memory.data[self.layout.slot_of(
                idx as int,
            )] == Some(self.log[self.readers[id].ticket]),
    {
        assert(self.reader_ok(id));
        let ticket = self.readers[id].ticket;
        if self.readers[id].op !is LoadIndex && self.readers[id].op !is Done {
            self.layout.lemma_ticket(ticket);
        }
        if self.readers[id].op is Take {
            assert(self.read_ticket_ok(ticket));
            self.layout.lemma_next_lap(ticket);
            assert(self.slot_ok(ticket + self.layout.capacity));
        }
    }

    /// A writer that stores its value finds the cell vacant: nothing is overwritten. Its next
    /// access is possible whatever the others did.
    pub proof fn law_writer_finds_room(self, id: nat)
        requires
            self.inv(),
            self.writers.contains_key(id),
        ensures
            self.writers[id].op.fits(self.layout),
            self.writers[id].op matches WriteOp::Put { idx, value }
                ==> self.memory.data[self.layout.slot_of(idx as int)] is None,
    {
        assert(self.writer_ok(id));
        let ticket = self.writers[id].ticket;
        if self.writers[id].op !is LoadIndex && self.writers[id].op !is Done {
            self.layout.lemma_ticket(ticket);
        }
        if self.writers[id].op is Put {
            assert(self.write_ticket_ok(ticket));
            assert(self.slot_ok(ticket));
        }
    }

    /// A read that reports `Empty` saw the ring empty at its last access. The premise is the limit
    /// of the machine word: fewer writes went by since the read loaded its index than there are
    /// indices.
    pub proof fn law_empty_means_empty(self, id: nat)
        requires
            self.inv(),
            self.readers.contains_key(id),
            self.readers[id].op is LoadWriteIndex,
            self.next_write() < self.readers[id].ticket + self.layout.period(),
        ensures
            self.step_read(id).readers[id].op is Done ==> self.contents().len() == 0,
    {
        assert(self.reader_ok(id));
        if self.step_read(id).readers[id].op is Done {
            self.layout.lemma_same_index(self.readers[id].ticket, self.next_write());
        }
    }

    /// A write that reports `Full` saw the ring full at its last access, unless a whole lap of reads
    /// went by since it loaded the write index.
    pub proof fn law_full_means_full(self, id: nat)
        requires
            self.inv(),
            self.writers.contains_key(id),
            self.writers[id].op is LoadReadIndex,
        ensures
            self.step_write(id).writers[id].op is Done ==> self.contents().len()
                == self.layout.capacity || self.next_read() >= self.writers[id].ticket
                + self.layout.capacity,
    {
        assert(self.writer_ok(id));
        let r = self.next_read();
        let ticket = self.writers[id].ticket;
        if self.step_write(id).writers[id].op is Done && r < ticket + self.layout.capacity {
            self.layout.lemma_ticket(r);
            self.layout.lemma_ticket(ticket);
            if r >= ticket {
                self.layout.lemma_same_slot(ticket, r);
            } else if ticket < r + self.layout.capacity {
                self.layout.lemma_same_slot(r, ticket);
            }
        }
    }

    /// The two indices tell whether the ring is empty and whether it is full. The ring is full
    /// exactly when they are at the same slot on different laps, which is when the read index is
    /// one lap behind.
    pub proof fn law_indices_tell_empty_and_full(self)
        requires
            self.inv(),
        ensures
            self.memory.read_idx == self.memory.write_idx <==> self.contents().len() == 0,
            self.layout.stands_for_full(self.memory.read_idx, self.memory.write_idx)
                <==> self.contents().len() == self.layout.capacity,
            self.layout.is_lap_behind(self.memory.read_idx, self.memory.write_idx)
                <==> self.contents().len() == self.layout.capacity,
    {
        let r = self.next_read();
        let w = self.next_write();
        let cap = self.layout.capacity;
        self.layout.lemma_laps();
        self.layout.lemma_ticket(r);
        self.layout.lemma_ticket(w);
        self.layout.lemma_next_lap(r);
        if self.memory.read_idx == self.memory.write_idx {
            self.layout.lemma_same_index(r, w);
        }
        if w < r + cap && self.layout.ticket_slot(r) == self.layout.ticket_slot(w) {
            self.layout.lemma_same_slot(r, w);
        }
        if self.layout.is_lap_behind(self.memory.read_idx, self.memory.write_idx) {
            self.layout.lemma_same_index(w, r + cap);
        }
    }

    /// Within the limit of the machine word, a reader claims only a slot that still has the stamp
    /// it loaded.
    pub proof fn law_prompt_read_claim_is_sound(self, id: nat)
        requires
            self.inv(),
            self.readers.contains_key(id),
            self.readers[id].op is Claim,
            self.next_read() < self.readers[id].ticket + self.layout.period(),
        ensures
            self.read_claim_is_sound(id),
    {
        assert(self.reader_ok(id));
        let ticket = self.readers[id].ticket;
        self.layout.lemma_ticket(ticket);
        if self.memory.read_idx == self.layout.index_of(ticket) {
            self.layout.lemma_same_index(ticket, self.next_read());
        }
    }

    /// Within the limit of the machine word, a writer claims only a slot that still has the stamp
    /// it loaded.
    pub proof fn law_prompt_write_claim_is_sound(self, id: nat)
        requires
            self.inv(),
            self.writers.contains_key(id),
            self.writers[id].op is Claim,
            self.next_write() < self.writers[id].ticket + self.layout.period(),
        ensures
            self.write_claim_is_sound(id),
    {
        assert(self.writer_ok(id));
        let ticket = self.writers[id].ticket;
        self.layout.lemma_ticket(ticket);
        if self.memory.write_idx == self.layout.index_of(ticket) {
            self.layout.lemma_same_index(ticket, self.next_write());
        }
    }

    /// A claim fails on its own merits only because another one succeeded. (An operation can also
    /// start over because it found the slot's stamp out of date; of that this law says nothing.)
    pub proof fn law_lost_claim_was_won_by_another(self, reader: nat, writer: nat)
        requires
            self.inv(),
            self.readers.contains_key(reader),
            self.writers.contains_key(writer),
        ensures
            self.readers[reader].op is Claim && self.step_read(reader).readers[reader].op
                is LoadIndex ==> self.next_read() > self.readers[reader].ticket,
            self.writers[writer].op is Claim && self.step_write(writer).writers[writer].op
                is LoadIndex ==> self.next_write() > self.writers[writer].ticket,
    {
        assert(self.reader_ok(reader));
        assert(self.writer_ok(writer));
    }
}

} // verus!
