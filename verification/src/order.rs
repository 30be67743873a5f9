use crate::ops::{ReadOp, WriteOp};
use crate::protocol::{Event, Machine};
use vstd::prelude::*;

verus! {

impl<T> Machine<T> {
    /// Reader `id` holds no ticket below `first`.
    spec fn reads_from(self, id: nat, first: int) -> bool {
        self.readers.contains_key(id) ==> match self.readers[id].op {
            ReadOp::LoadIndex => true,
            ReadOp::Done(Err(e)) => true,
            _ => self.readers[id].ticket >= first,
        }
    }

    /// Writer `id` holds no ticket below `first`.
    spec fn writes_from(self, id: nat, first: int) -> bool {
        self.writers.contains_key(id) ==> match self.writers[id].op {
            WriteOp::LoadIndex { value } => true,
            WriteOp::Done(Err(e)) => true,
            _ => self.writers[id].ticket >= first,
        }
    }

    /// A read that is over stays as it is, and another takes no ticket below `first`.
    proof fn lemma_read_order(self, events: Seq<Event<T>>, a: nat, b: nat, first: int)
        requires
            self.can_run(events),
            self.readers.contains_key(a),
            self.readers[a].op is Done,
            self.next_read() >= first,
            self.reads_from(b, first),
        ensures
            self.run(events).readers.contains_key(a),
            self.run(events).readers[a] == self.readers[a],
            self.run(events).reads_from(b, first),
        decreases events.len(),
    {
        if events.len() > 0 {
            self.after(events[0]).lemma_read_order(events.drop_first(), a, b, first);
        }
    }

    /// A write that is over stays as it is, and another takes no ticket below `first`.
    proof fn lemma_write_order(self, events: Seq<Event<T>>, a: nat, b: nat, first: int)
        requires
            self.can_run(events),
            self.writers.contains_key(a),
            self.writers[a].op is Done,
            self.next_write() >= first,
            self.writes_from(b, first),
        ensures
            self.run(events).writers.contains_key(a),
            self.run(events).writers[a] == self.writers[a],
            self.run(events).writes_from(b, first),
        decreases events.len(),
    {
        if events.len() > 0 {
            self.after(events[0]).lemma_write_order(events.drop_first(), a, b, first);
        }
    }

    /// Reads keep their order: of two reads that return an item, the one that began when the other
    /// was over has the later ticket. Tickets are places in the queue.
    pub proof fn law_later_reads_have_later_tickets(self, events: Seq<Event<T>>, a: nat, b: nat)
        requires
            self.inv(),
            self.readers.contains_key(a),
            self.readers[a].op matches ReadOp::Done(Ok(_)),
            !self.readers.contains_key(b),
            self.can_run(events),
            self.run(events).readers.contains_key(b),
            self.run(events).readers[b].op matches ReadOp::Done(Ok(_)),
        ensures
            self.run(events).readers[a] == self.readers[a],
            self.run(events).readers[a].ticket < self.run(events).readers[b].ticket,
    {
        assert(self.reader_ok(a));
        self.lemma_read_order(events, a, b, self.next_read());
    }

    /// Writes keep their order: of two writes that are accepted, the one that began when the other
    /// was over has the later ticket. Tickets are places in the queue.
    pub proof fn law_later_writes_have_later_tickets(self, events: Seq<Event<T>>, a: nat, b: nat)
        requires
            self.inv(),
            self.writers.contains_key(a),
            self.writers[a].op matches WriteOp::Done(Ok(_)),
            !self.writers.contains_key(b),
            self.can_run(events),
            self.run(events).writers.contains_key(b),
            self.run(events).writers[b].op matches WriteOp::Done(Ok(_)),
        ensures
            self.run(events).writers[a] == self.writers[a],
            self.run(events).writers[a].ticket < self.run(events).writers[b].ticket,
    {
        assert(self.writer_ok(a));
        self.lemma_write_order(events, a, b, self.next_write());
    }
}

} // verus!
