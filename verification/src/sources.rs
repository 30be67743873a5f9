use crate::layout::Layout;
use crate::ops::{ReadOp, WriteOp};
use crate::protocol::{Event, Machine, Reader, Writer};
use vstd::prelude::*;

verus! {

impl<T> Machine<T> {
    /// Writer `k` was started with `v` and has stored it.
    pub open spec fn stored_by(self, k: nat, v: T) -> bool {
        &&& self.writers.contains_key(k)
        &&& self.writers[k].value == v
        &&& match self.writers[k].op {
            WriteOp::Publish { idx } => true,
            WriteOp::Done(Ok(_)) => true,
            _ => false,
        }
    }

    /// What is in the cell of slot `s` was stored by the slot's source.
    pub open spec fn slot_traced(self, s: int) -> bool {
        match (self.memory.data[s], self.sources[s]) {
            (Some(v), Some(k)) => self.stored_by(k, v),
            (None, None) => true,
            _ => false,
        }
    }

    /// What reader `id` has taken was stored by the reader's source.
    pub open spec fn reader_traced(self, id: nat) -> bool {
        let reader = self.readers[id];
        &&& reader.op.fits(self.layout)
        &&& match reader.op {
            ReadOp::Release { idx, value } => reader.source matches Some(k) && self.stored_by(
                k,
                value,
            ),
            ReadOp::Done(Ok(value)) => reader.source matches Some(k) && self.stored_by(k, value),
            _ => reader.source is None,
        }
    }

    /// Writer `id` still has the value that it was started with, until it stores it.
    pub open spec fn writer_traced(self, id: nat) -> bool {
        let writer = self.writers[id];
        &&& writer.op.fits(self.layout)
        &&& match writer.op {
            WriteOp::LoadIndex { value } => value == writer.value,
            WriteOp::LoadStamp { idx, value } => value == writer.value,
            WriteOp::LoadReadIndex { idx, value } => value == writer.value,
            WriteOp::Claim { idx, value } => value == writer.value,
            WriteOp::Put { idx, value } => value == writer.value,
            _ => true,
        }
    }

    /// Every value in the ring, and every value that a reader has, comes from one writer, and no
    /// two of them from the same. This holds in every run, whatever the machine word's limit.
    pub open spec fn traced(self) -> bool {
        &&& self.layout.wf()
        &&& self.layout.capacity > 0
        &&& self.memory.fits(self.layout)
        &&& self.sources.len() == self.layout.capacity
        &&& forall|s: int| 0 <= s < self.sources.len() ==> #[trigger] self.slot_traced(s)
        &&& forall|id: nat| self.readers.contains_key(id) ==> #[trigger] self.reader_traced(id)
        &&& forall|id: nat| self.writers.contains_key(id) ==> #[trigger] self.writer_traced(id)
        &&& forall|a: int, b: int|
            0 <= a < b < self.sources.len() && self.sources[a] is Some
                ==> #[trigger] self.sources[a] != #[trigger] self.sources[b]
        &&& forall|a: nat, b: nat|
            #![trigger self.readers[a].source, self.readers[b].source]
            self.readers.contains_key(a) && self.readers.contains_key(b) && a != b
                && self.readers[a].source is Some ==> self.readers[a].source
                != self.readers[b].source
        &&& forall|s: int, id: nat|
            #![trigger self.sources[s], self.readers[id].source]
            0 <= s < self.sources.len() && self.readers.contains_key(id) && self.sources[s] is Some
                ==> self.sources[s] != self.readers[id].source
    }

    /// A new ring is traced.
    pub proof fn lemma_initial_traced(layout: Layout)
        requires
            layout.wf(),
            layout.capacity > 0,
        ensures
            Self::initial(layout).traced(),
    {
        let ring = Self::initial(layout);
        layout.lemma_first_lap(0);
        layout.lemma_ticket(0);
        assert forall|s: int| 0 <= s < ring.sources.len() implies #[trigger] ring.slot_traced(s) by {
            assert(ring.sources[s] is None);
        }
    }

    /// A reader that moves on without taking anything stays traced.
    proof fn lemma_reader_moves_traced(self, id: nat, reader: Reader<T>)
        requires
            self.traced(),
            reader.source == if self.readers.contains_key(id) {
                self.readers[id].source
            } else {
                None
            },
            (Machine { readers: self.readers.insert(id, reader), ..self }).reader_traced(id),
        ensures
            (Machine { readers: self.readers.insert(id, reader), ..self }).traced(),
    {
        let post = Machine { readers: self.readers.insert(id, reader), ..self };
        assert forall|s: int| 0 <= s < post.sources.len() implies #[trigger] post.slot_traced(s) by {
            assert(self.slot_traced(s));
        }
        assert forall|k: nat| post.readers.contains_key(k) implies #[trigger] post.reader_traced(
            k,
        ) by {
            if k != id {
                assert(self.reader_traced(k));
            }
        }
        assert forall|k: nat| post.writers.contains_key(k) implies #[trigger] post.writer_traced(
            k,
        ) by {
            assert(self.writer_traced(k));
        }
    }

    /// A writer that starts, or starts over, stays traced.
    proof fn lemma_writer_moves_traced(self, id: nat, writer: Writer<T>)
        requires
            self.traced(),
            !self.writers.contains_key(id) || self.writers[id].op is Claim,
            (Machine { writers: self.writers.insert(id, writer), ..self }).writer_traced(id),
        ensures
            (Machine { writers: self.writers.insert(id, writer), ..self }).traced(),
    {
        let post = Machine { writers: self.writers.insert(id, writer), ..self };
        assert forall|s: int| 0 <= s < post.sources.len() implies #[trigger] post.slot_traced(s) by {
            assert(self.slot_traced(s));
        }
        assert forall|k: nat| post.readers.contains_key(k) implies #[trigger] post.reader_traced(
            k,
        ) by {
            assert(self.reader_traced(k));
        }
        assert forall|k: nat| post.writers.contains_key(k) implies #[trigger] post.writer_traced(
            k,
        ) by {
            if k != id {
                assert(self.writer_traced(k));
            }
        }
    }

    /// Every access of a reader keeps the ring traced.
    proof fn lemma_step_read_traced(self, id: nat)
        requires
            self.traced(),
            self.possible(Event::StepRead { id }),
        ensures
            self.step_read(id).traced(),
    {
        let post = self.step_read(id);
        assert(self.reader_traced(id));
        match self.readers[id].op {
            ReadOp::Claim { idx } => {
                self.layout.lemma_index(idx as int);
            },
            ReadOp::Take { idx } => {
                self.layout.lemma_index(idx as int);
                assert(self.slot_traced(self.layout.slot_of(idx as int)));
            },
            ReadOp::Release { idx, value } => {
                self.layout.lemma_index(idx as int);
            },
            _ => {},
        }
        assert(post.memory.fits(post.layout));
        assert forall|s: int| 0 <= s < post.sources.len() implies #[trigger] post.slot_traced(s) by {
            assert(self.slot_traced(s));
        }
        assert forall|k: nat| post.readers.contains_key(k) implies #[trigger] post.reader_traced(
            k,
        ) by {
            assert(self.reader_traced(k));
        }
        assert forall|k: nat| post.writers.contains_key(k) implies #[trigger] post.writer_traced(
            k,
        ) by {
            assert(self.writer_traced(k));
        }
    }

    /// Every access of a writer keeps the ring traced.
    proof fn lemma_step_write_traced(self, id: nat)
        requires
            self.traced(),
            self.possible(Event::StepWrite { id }),
        ensures
            self.step_write(id).traced(),
    {
        let post = self.step_write(id);
        assert(self.writer_traced(id));
        match self.writers[id].op {
            WriteOp::Claim { idx, value } => {
                self.layout.lemma_index(idx as int);
            },
            WriteOp::Put { idx, value } => {
                self.layout.lemma_index(idx as int);
            },
            WriteOp::Publish { idx } => {
                self.layout.lemma_index(idx as int);
            },
            _ => {},
        }
        assert(post.memory.fits(post.layout));
        assert forall|s: int| 0 <= s < post.sources.len() implies #[trigger] post.slot_traced(s) by {
            assert(self.slot_traced(s));
        }
        assert forall|k: nat| post.readers.contains_key(k) implies #[trigger] post.reader_traced(
            k,
        ) by {
            assert(self.reader_traced(k));
        }
        assert forall|k: nat| post.writers.contains_key(k) implies #[trigger] post.writer_traced(
            k,
        ) by {
            assert(self.writer_traced(k));
        }
        assert forall|a: int, b: int|
            0 <= a < b < post.sources.len()
                && post.sources[a] is Some implies #[trigger] post.sources[a]
            != #[trigger] post.sources[b] by {
            assert(self.slot_traced(a));
            assert(self.slot_traced(b));
        }
        assert forall|s: int, k: nat|
            #![trigger post.sources[s], post.readers[k].source]
            0 <= s < post.sources.len() && post.readers.contains_key(k)
                && post.sources[s] is Some implies post.sources[s] != post.readers[k].source by {
            assert(self.slot_traced(s));
            assert(self.reader_traced(k));
        }
    }

    /// Every event keeps the ring traced.
    pub proof fn lemma_event_traced(self, event: Event<T>)
        requires
            self.traced(),
            self.possible(event),
        ensures
            self.after(event).traced(),
    {
        let post = self.after(event);
        match event {
            Event::BeginRead { id } => {
                self.lemma_reader_moves_traced(id, post.readers[id]);
            },
            Event::BeginWrite { id, value } => {
                self.lemma_writer_moves_traced(id, post.writers[id]);
            },
            Event::StepRead { id } => {
                self.lemma_step_read_traced(id);
            },
            Event::StepWrite { id } => {
                self.lemma_step_write_traced(id);
            },
            Event::LoseRead { id } => {
                assert(self.reader_traced(id));
                self.lemma_reader_moves_traced(id, post.readers[id]);
            },
            Event::LoseWrite { id } => {
                assert(self.writer_traced(id));
                self.lemma_writer_moves_traced(id, post.writers[id]);
            },
        }
    }
}

} // verus!
