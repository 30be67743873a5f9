use crate::layout::Layout;
use vstd::prelude::*;

verus! {

/// The words and cells that readers and writers of a ring share.
#[verifier::ext_equal]
pub struct Memory<T> {
    pub read_idx: usize,
    pub write_idx: usize,
    pub stamps: Seq<usize>,
    pub data: Seq<Option<T>>,
}

impl<T> Memory<T> {
    /// The memory of a new ring: every slot is stamped for the writer of the first lap.
    pub open spec fn initial(layout: Layout) -> Memory<T> {
        Memory {
            read_idx: 0,
            write_idx: 0,
            stamps: Seq::new(layout.capacity as nat, |i: int| (i + 1) as usize),
            data: Seq::new(layout.capacity as nat, |i: int| None),
        }
    }

    /// The memory has one stamp and one cell for each slot, and both indices belong to the layout.
    pub open spec fn fits(self, layout: Layout) -> bool {
        &&& self.stamps.len() == layout.capacity
        &&& self.data.len() == layout.capacity
        &&& if layout.capacity == 0 {
            self.read_idx == 0 && self.write_idx == 0
        } else {
            layout.is_index(self.read_idx as int) && layout.is_index(self.write_idx as int)
        }
    }

    /// The slot of ticket `t` holds the value that ticket `t` wrote.
    pub open spec fn filled(self, layout: Layout, t: int) -> bool {
        &&& self.stamps[layout.ticket_slot(t)] == layout.index_of(t)
        &&& self.data[layout.ticket_slot(t)] is Some
    }

    /// The slot of ticket `t` waits for the writer with ticket `t`.
    pub open spec fn vacant(self, layout: Layout, t: int) -> bool {
        &&& self.stamps[layout.ticket_slot(t)] == layout.index_of(t) + 1
        &&& self.data[layout.ticket_slot(t)] is None
    }

    /// The value in the slot of ticket `t`.
    pub open spec fn value_at(self, layout: Layout, t: int) -> T {
        self.data[layout.ticket_slot(t)]->0
    }

    /// No operation is under way, the next reader has ticket `r`, and `n` items are stored.
    pub open spec fn holds(self, layout: Layout, r: int, n: int) -> bool {
        &&& self.fits(layout)
        &&& 0 <= r
        &&& 0 <= n <= layout.capacity
        &&& layout.capacity > 0 ==> self.read_idx == layout.index_of(r)
        &&& layout.capacity > 0 ==> self.write_idx == layout.index_of(r + n)
        &&& forall|t: int| r <= t < r + n ==> #[trigger] self.filled(layout, t)
        &&& forall|t: int| r + n <= t < r + layout.capacity ==> #[trigger] self.vacant(layout, t)
    }

    /// The `n` items from ticket `r` on, oldest first.
    pub open spec fn items(self, layout: Layout, r: int, n: int) -> Seq<T> {
        Seq::new(n as nat, |k: int| self.value_at(layout, r + k))
    }

    /// The number of items between the read index and the write index.
    pub open spec fn count(self, layout: Layout) -> int {
        let r = layout.position(self.read_idx as int);
        let w = layout.position(self.write_idx as int);
        if r <= w {
            w - r
        } else {
            w - r + layout.period()
        }
    }

    /// No operation is under way.
    pub open spec fn at_rest(self, layout: Layout) -> bool {
        self.holds(layout, layout.position(self.read_idx as int), self.count(layout))
    }

    /// The stored items, oldest first.
    pub open spec fn contents(self, layout: Layout) -> Seq<T> {
        self.items(layout, layout.position(self.read_idx as int), self.count(layout))
    }

    /// Tickets may be counted from any lap: whichever ticket the next reader is given, the ring
    /// at rest and its contents are the same.
    pub proof fn lemma_renumber(self, layout: Layout, r: int, n: int)
        requires
            layout.wf(),
            layout.capacity > 0,
            self.holds(layout, r, n),
        ensures
            self.at_rest(layout),
            self.count(layout) == n,
            self.contents(layout) == self.items(layout, r, n),
    {
        let p = layout.position(self.read_idx as int);
        layout.lemma_ticket(r);
        layout.lemma_ticket(r + n);
        layout.lemma_position(r);
        layout.lemma_position(r + n);
        layout.lemma_shift(r, n);
        layout.lemma_shift(r, 0);
        layout.lemma_laps();
        layout.lemma_gap(r, n);
        assert forall|t: int| p <= t < p + n implies #[trigger] self.filled(layout, t) by {
            layout.lemma_shift(r, t - p);
            assert(self.filled(layout, t - p + r));
        }
        assert forall|t: int| p + n <= t < p + layout.capacity implies #[trigger] self.vacant(
            layout,
            t,
        ) by {
            layout.lemma_shift(r, t - p);
            assert(self.vacant(layout, t - p + r));
        }
        assert forall|k: int| 0 <= k < n implies self.contents(layout)[k] == self.items(
            layout,
            r,
            n,
        )[k] by {
            layout.lemma_shift(r, k);
        }
        assert(self.contents(layout) =~= self.items(layout, r, n));
    }

    /// A new ring is at rest and holds nothing.
    pub proof fn lemma_initial(layout: Layout)
        requires
            layout.wf(),
        ensures
            Self::initial(layout).at_rest(layout),
            Self::initial(layout).contents(layout) == Seq::<T>::empty(),
    {
        let m = Self::initial(layout);
        layout.lemma_laps();
        assert forall|t: int| 0 <= t < layout.capacity implies #[trigger] m.vacant(layout, t) by {
            layout.lemma_first_lap(t);
        }
        if layout.capacity > 0 {
            layout.lemma_first_lap(0);
            layout.lemma_ticket(0);
        }
        assert(m.contents(layout) =~= Seq::<T>::empty());
    }
}

} // verus!
