use vstd::arithmetic::div_mod::*;
use vstd::arithmetic::power2::*;
use vstd::bits::*;
use vstd::prelude::*;

verus! {

/// The number of values of a word.
pub open spec fn word_range() -> int {
    usize::MAX + 1
}

/// How ring indices are encoded.
///
/// An index is a slot number below `capacity`, plus `mcb` (the maximum capacity bit) for every lap
/// around the ring before it. `mcb` is the smallest power of two above `capacity`, so the slot
/// number and the number of laps never overlap. The number of laps wraps at the end of the word.
#[derive(Clone, Copy, Debug, PartialEq, Eq, Structural)]
pub struct Layout {
    pub capacity: usize,
    pub mcb: usize,
}

impl Layout {
    /// `mcb` is the smallest power of two that is greater than `capacity`.
    pub open spec fn wf(self) -> bool {
        &&& is_pow2(self.mcb as int)
        &&& self.capacity < self.mcb
        &&& self.mcb <= 2 * self.capacity || self.mcb == 1
    }

    /// The slot that an index refers to.
    pub open spec fn slot_of(self, idx: int) -> int {
        idx % self.mcb as int
    }

    /// The indices that occur in a ring with this layout.
    pub open spec fn is_index(self, idx: int) -> bool {
        0 <= idx < word_range() && self.slot_of(idx) < self.capacity
    }

    /// The number of laps that an index can tell apart.
    pub open spec fn laps(self) -> int {
        word_range() / self.mcb as int
    }

    /// The number of indices: after so many operations an index comes back.
    pub open spec fn period(self) -> int {
        self.laps() * self.capacity
    }

    /// The read index `r` and the write index `w` stand for a full ring: both are at the same slot,
    /// on different laps.
    pub open spec fn stands_for_full(self, r: usize, w: usize) -> bool {
        self.slot_of(w as int) == self.slot_of(r as int) && r != w
    }

    /// The read index `r` is exactly one lap behind the write index `w`.
    pub open spec fn is_lap_behind(self, r: usize, w: usize) -> bool {
        w == self.one_lap_on(r as int)
    }

    /// The same slot on the next lap.
    pub open spec fn one_lap_on(self, idx: int) -> int {
        if idx + self.mcb < word_range() {
            idx + self.mcb
        } else {
            idx + self.mcb - word_range()
        }
    }

    /// The index after `idx`: the next slot, or slot zero of the next lap after the last slot.
    pub open spec fn next_index(self, idx: int) -> int {
        if self.slot_of(idx) + 1 < self.capacity {
            idx + 1
        } else {
            self.one_lap_on(idx - self.slot_of(idx))
        }
    }

    /// The index that the operation number `ticket` works on, counting from zero.
    pub open spec fn index_of(self, ticket: int) -> int {
        (ticket / self.capacity as int) % self.laps() * self.mcb + ticket % self.capacity as int
    }

    /// The first ticket that has this index.
    pub open spec fn position(self, idx: int) -> int {
        self.capacity * (idx / self.mcb as int) + idx % self.mcb as int
    }

    /// The slot that the operation number `ticket` works on.
    pub open spec fn ticket_slot(self, ticket: int) -> int {
        ticket % self.capacity as int
    }

    /// The layout of a ring with room for `capacity` items.
    pub fn new(capacity: usize) -> (layout: Layout)
        requires
            capacity <= isize::MAX,
        ensures
            layout.wf(),
            layout.capacity == capacity,
    {
        proof {
            lemma_isize_is_half();
            reveal(is_pow2);
        }
        let mut mcb: usize = 1;
        while mcb <= capacity
            invariant
                2 * capacity <= usize::MAX,
                0 < mcb,
                is_pow2(mcb as int),
                mcb <= 2 * capacity || mcb == 1,
            decreases 2 * capacity + 1 - mcb,
        {
            proof {
                reveal(is_pow2);
                assert((2 * mcb) / 2 == mcb);
            }
            mcb = mcb * 2;
        }
        Layout { capacity, mcb }
    }

    /// The slot that `idx` refers to.
    pub fn slot(&self, idx: usize) -> (i: usize)
        requires
            self.wf(),
        ensures
            i == self.slot_of(idx as int),
    {
        proof {
            lemma_mask(idx, self.mcb);
        }
        idx & (self.mcb - 1)
    }

    /// Whether `idx` is one of this layout's indices.
    pub fn contains(&self, idx: usize) -> (b: bool)
        requires
            self.wf(),
        ensures
            b == self.is_index(idx as int),
    {
        self.slot(idx) < self.capacity
    }

    /// The index after `idx`, computed without branches.
    pub fn advance(&self, idx: usize) -> (new_idx: usize)
        requires
            self.wf(),
            self.is_index(idx as int),
        ensures
            new_idx == self.next_index(idx as int),
            self.is_index(new_idx as int),
    {
        let i: usize = self.slot(idx);
        proof {
            self.lemma_index(idx as int);
        }
        let at_capacity: usize = (i + 1 >= self.capacity) as usize;
        let lap: usize = (idx - i).wrapping_add(self.mcb);
        proof {
            let after: usize = (idx + 1) as usize;
            let ones = usize::MAX;
            assert(ones <= !0usize) by (bit_vector);
            assert(after & !0usize == after) by (bit_vector);
            assert(after & 0usize == 0usize) by (bit_vector);
            assert(after | 0usize == after) by (bit_vector);
            assert(0usize | lap == lap) by (bit_vector);
        }
        ((idx + 1) & at_capacity.wrapping_sub(1)) | (at_capacity * lap)
    }

    /// The stamp that a reader of `idx` leaves for the writer of the next lap.
    pub fn freed_stamp(&self, idx: usize) -> (stamp: usize)
        requires
            self.wf(),
            self.is_index(idx as int),
        ensures
            stamp == self.one_lap_on(idx as int) + 1,
    {
        proof {
            self.lemma_index(idx as int);
            self.lemma_index(self.one_lap_on(idx as int));
        }
        idx.wrapping_add(self.mcb) + 1
    }

    /// Whether a ring whose next reader is at `r` and whose next writer is at `w` is full: both
    /// are at the same slot, on different laps.
    pub fn full(&self, r: usize, w: usize) -> (b: bool)
        requires
            self.wf(),
        ensures
            b == self.stands_for_full(r, w),
    {
        proof {
            lemma_mask(w, self.mcb);
            lemma_mask(r, self.mcb);
        }
        let mask: usize = self.mcb - 1;
        (w & mask) == (r & mask) && r != w
    }

    /// Whether a ring whose next reader is at `r` and whose next writer is at `w` is empty.
    pub fn empty(&self, r: usize, w: usize) -> (b: bool)
        ensures
            b == (w == r),
    {
        w == r
    }
}

/// A signed word holds half the range of an unsigned one.
proof fn lemma_isize_is_half()
    ensures
        2 * isize::MAX + 1 == usize::MAX,
{
}

/// Masking with a power of two less one is the remainder by that power.
proof fn lemma_mask(x: usize, m: usize)
    requires
        is_pow2(m as int),
    ensures
        m > 0,
        x & (m - 1) as usize == x % m,
{
    is_pow2_equiv(m as int);
    let k = choose|k: nat| vstd::arithmetic::power::pow(2, k) == m as int;
    lemma_pow2(k);
    lemma_pow2_pos(k);
    lemma2_to64();
    if k >= usize::BITS {
        if k > usize::BITS {
            lemma_pow2_strictly_increases(usize::BITS as nat, k);
        }
        assert(false);
    }
    lemma_usize_low_bits_mask_is_mod(x, k);
}

/// How a remainder moves when less than one divisor is added.
proof fn lemma_mod_step(t: int, d: int, n: int)
    requires
        0 <= t,
        0 <= d < n,
    ensures
        0 <= t % n < n,
        (t + d) % n == if t % n + d < n {
            t % n + d
        } else {
            t % n + d - n
        },
{
    let q = t / n;
    let p = t % n;
    lemma_fundamental_div_mod(t, n);
    lemma_mod_pos_bound(t, n);
    if p + d < n {
        assert(t + d == q * n + (p + d)) by (nonlinear_arith)
            requires
                t == n * q + p,
        ;
        lemma_fundamental_div_mod_converse(t + d, n, q, p + d);
    } else {
        assert(t + d == (q + 1) * n + (p + d - n)) by (nonlinear_arith)
            requires
                t == n * q + p,
        ;
        lemma_fundamental_div_mod_converse(t + d, n, q + 1, p + d - n);
    }
}

/// A power of two that fits in a word divides the word's range, and fits in twice.
proof fn lemma_word_range(m: usize)
    requires
        is_pow2(m as int),
    ensures
        (word_range() / m as int) * m == word_range(),
        word_range() / m as int >= 2,
{
    is_pow2_equiv(m as int);
    let k = choose|k: nat| vstd::arithmetic::power::pow(2, k) == m as int;
    lemma_pow2(k);
    lemma_pow2_pos(k);
    lemma2_to64();
    if k >= usize::BITS {
        if k > usize::BITS {
            lemma_pow2_strictly_increases(usize::BITS as nat, k);
        }
        assert(false);
    }
    let rest = (usize::BITS - k) as nat;
    lemma_pow2_adds(rest, k);
    lemma_pow2_unfold(rest);
    lemma_pow2_pos((rest - 1) as nat);
    assert(pow2(rest) * pow2(k) == word_range());
    lemma_fundamental_div_mod_converse(word_range(), m as int, pow2(rest) as int, 0);
}

/// The quotient and the remainder one up.
proof fn lemma_div_step(t: int, c: int)
    requires
        0 <= t,
        0 < c,
    ensures
        0 <= t % c < c,
        0 <= t / c,
        t % c + 1 < c ==> (t + 1) / c == t / c && (t + 1) % c == t % c + 1,
        t % c + 1 == c ==> (t + 1) / c == t / c + 1 && (t + 1) % c == 0,
        (t + c) / c == t / c + 1,
        (t + c) % c == t % c,
{
    let q = t / c;
    let p = t % c;
    lemma_fundamental_div_mod(t, c);
    lemma_mod_pos_bound(t, c);
    lemma_div_pos_is_pos(t, c);
    assert(t == q * c + p && (q + 1) * c == q * c + c) by (nonlinear_arith)
        requires
            t == c * q + p,
    ;
    if p + 1 < c {
        lemma_fundamental_div_mod_converse(t + 1, c, q, p + 1);
    } else {
        lemma_fundamental_div_mod_converse(t + 1, c, q + 1, 0);
    }
    lemma_fundamental_div_mod_converse(t + c, c, q + 1, p);
}

impl Layout {
    /// The laps fill the word.
    pub proof fn lemma_laps(self)
        requires
            self.wf(),
        ensures
            self.mcb > 0,
            self.laps() >= 2,
            self.laps() * self.mcb == word_range(),
            self.capacity > 0 ==> self.mcb >= 2,
            self.capacity > 0 ==> 2 * self.period() >= word_range(),
            self.capacity > 0 ==> self.period() >= 2 * self.capacity,
    {
        lemma_word_range(self.mcb);
        lemma_mask(0, self.mcb);
        let l = self.laps();
        let c = self.capacity as int;
        let m = self.mcb as int;
        if c > 0 {
            assert(2 * (l * c) >= l * m && l * c >= 2 * c) by (nonlinear_arith)
                requires
                    l >= 2,
                    c > 0,
                    m <= 2 * c,
            ;
        }
    }

    /// An index leaves room in the word for the rest of its lap, and one lap on comes the same
    /// slot.
    pub proof fn lemma_index(self, idx: int)
        requires
            self.wf(),
            self.is_index(idx),
        ensures
            0 <= self.slot_of(idx) <= idx,
            idx + 1 < word_range(),
            self.is_index(self.one_lap_on(idx)),
            self.slot_of(self.one_lap_on(idx)) == self.slot_of(idx),
            self.is_index(self.next_index(idx)),
    {
        self.lemma_laps();
        let m = self.mcb as int;
        let l = self.laps();
        let q = idx / m;
        let i = idx % m;
        lemma_fundamental_div_mod(idx, m);
        lemma_mod_pos_bound(idx, m);
        lemma_div_pos_is_pos(idx, m);
        assert(q < l && q * m + m <= l * m && 0 <= q * m && (q + 1) * m == q * m + m) by (
        nonlinear_arith)
            requires
                idx == m * q + i,
                0 <= i < m,
                0 <= q,
                idx < l * m,
        ;
        assert(idx == q * m + i) by (nonlinear_arith)
            requires
                idx == m * q + i,
        ;
        if q + 1 < l {
            assert(q * m + 2 * m <= l * m) by (nonlinear_arith)
                requires
                    q + 1 < l,
                    0 < m,
            ;
            lemma_fundamental_div_mod_converse(idx + m, m, q + 1, i);
            lemma_fundamental_div_mod_converse(idx - i + m, m, q + 1, 0);
        } else {
            assert(q * m + m == l * m) by (nonlinear_arith)
                requires
                    q + 1 == l,
            ;
            lemma_fundamental_div_mod_converse(i, m, 0, i);
            lemma_fundamental_div_mod_converse(0, m, 0, 0);
        }
        if i + 1 < self.capacity {
            lemma_fundamental_div_mod_converse(idx + 1, m, q, i + 1);
        }
    }

    /// What the index of a ticket is made of: its slot, and its lap as far as the word goes.
    proof fn lemma_index_parts(self, t: int)
        requires
            self.wf(),
            0 < self.capacity,
            0 <= t,
        ensures
            0 <= self.ticket_slot(t) < self.capacity,
            0 <= self.index_of(t) < word_range(),
            self.index_of(t) / self.mcb as int == (t / self.capacity as int) % self.laps(),
            self.index_of(t) % self.mcb as int == self.ticket_slot(t),
            self.position(self.index_of(t)) == t % self.period(),
            0 <= t % self.period() < self.period(),
            (t % self.period()) / self.capacity as int == (t / self.capacity as int) % self.laps(),
            (t % self.period()) % self.capacity as int == self.ticket_slot(t),
    {
        self.lemma_laps();
        let m = self.mcb as int;
        let l = self.laps();
        let c = self.capacity as int;
        let q = (t / c) % l;
        lemma_div_step(t, c);
        lemma_mod_pos_bound(t / c, l);
        assert(0 <= q * m && q * m + m <= l * m) by (nonlinear_arith)
            requires
                0 <= q < l,
                0 < m,
        ;
        lemma_fundamental_div_mod_converse(self.index_of(t), m, q, t % c);
        lemma_mod_breakdown(t, c, l);
        assert(c * l == self.period()) by (nonlinear_arith)
            requires
                self.period() == l * c,
        ;
        assert(c * q == q * c) by (nonlinear_arith);
        lemma_fundamental_div_mod_converse(t % self.period(), c, q, t % c);
        lemma_mod_pos_bound(t, self.period());
    }

    /// What the index of a ticket is: an index of the ticket's slot.
    pub proof fn lemma_ticket(self, t: int)
        requires
            self.wf(),
            0 < self.capacity,
            0 <= t,
        ensures
            self.is_index(self.index_of(t)),
            self.slot_of(self.index_of(t)) == self.ticket_slot(t),
            0 <= self.ticket_slot(t) < self.capacity,
            self.index_of(t) + 1 < word_range(),
    {
        self.lemma_index_parts(t);
        self.lemma_index(self.index_of(t));
    }

    /// On the first lap, tickets, slots and indices are the same numbers.
    pub proof fn lemma_first_lap(self, t: int)
        requires
            self.wf(),
            0 <= t < self.capacity,
        ensures
            self.index_of(t) == t,
            self.ticket_slot(t) == t,
            self.position(0) == 0,
    {
        self.lemma_laps();
        lemma_fundamental_div_mod_converse(t, self.capacity as int, 0, t);
        lemma_fundamental_div_mod_converse(0, self.laps(), 0, 0);
        lemma_fundamental_div_mod_converse(0, self.mcb as int, 0, 0);
    }

    /// Consecutive tickets have consecutive indices.
    pub proof fn lemma_next_ticket(self, t: int)
        requires
            self.wf(),
            0 < self.capacity,
            0 <= t,
        ensures
            self.index_of(t + 1) == self.next_index(self.index_of(t)),
    {
        self.lemma_laps();
        self.lemma_index_parts(t);
        let m = self.mcb as int;
        let l = self.laps();
        let c = self.capacity as int;
        let q = (t / c) % l;
        lemma_div_step(t, c);
        lemma_mod_step(t / c, 1, l);
        assert((q + 1) * m == q * m + m && 0 * m == 0) by (nonlinear_arith);
        assert(q + 1 < l ==> q * m + 2 * m <= l * m) by (nonlinear_arith)
            requires
                0 < m,
        ;
        assert(q + 1 == l ==> q * m + m == l * m) by (nonlinear_arith);
    }

    /// Tickets one capacity apart share a slot, one lap on. The two indices and the stamps of a
    /// vacant slot that belong to them are all different.
    pub proof fn lemma_next_lap(self, t: int)
        requires
            self.wf(),
            0 < self.capacity,
            0 <= t,
        ensures
            self.index_of(t + self.capacity) == self.one_lap_on(self.index_of(t)),
            self.ticket_slot(t + self.capacity) == self.ticket_slot(t),
            self.index_of(t + self.capacity) != self.index_of(t),
            self.index_of(t + self.capacity) != self.index_of(t) + 1,
            self.index_of(t + self.capacity) + 1 != self.index_of(t),
    {
        self.lemma_laps();
        self.lemma_index_parts(t);
        self.lemma_index_parts(t + self.capacity);
        let m = self.mcb as int;
        let l = self.laps();
        let c = self.capacity as int;
        let q = (t / c) % l;
        lemma_div_step(t, c);
        lemma_mod_step(t / c, 1, l);
        assert((q + 1) * m == q * m + m && 0 * m == 0) by (nonlinear_arith);
        assert(q + 1 < l ==> q * m + 2 * m <= l * m) by (nonlinear_arith)
            requires
                0 < m,
        ;
        assert(q + 1 == l ==> q * m + m == l * m) by (nonlinear_arith);
        assert(l * m >= 2 * m) by (nonlinear_arith)
            requires
                l >= 2,
                m > 0,
        ;
    }

    /// Less than one period apart, tickets with the same index are the same.
    pub proof fn lemma_same_index(self, a: int, b: int)
        requires
            self.wf(),
            0 < self.capacity,
            0 <= a <= b < a + self.period(),
            self.index_of(a) == self.index_of(b),
        ensures
            a == b,
    {
        self.lemma_index_parts(a);
        self.lemma_index_parts(b);
        lemma_mod_step(a, b - a, self.period());
    }

    /// Less than one lap apart, tickets with the same slot are the same.
    pub proof fn lemma_same_slot(self, a: int, b: int)
        requires
            self.wf(),
            0 < self.capacity,
            0 <= a <= b < a + self.capacity,
            self.ticket_slot(a) == self.ticket_slot(b),
        ensures
            a == b,
    {
        lemma_mod_step(a, b - a, self.capacity as int);
    }

    /// The position of a ticket's index is the ticket, up to whole periods.
    pub proof fn lemma_position(self, t: int)
        requires
            self.wf(),
            0 < self.capacity,
            0 <= t,
        ensures
            self.position(self.index_of(t)) == t % self.period(),
            0 <= self.position(self.index_of(t)) < self.period(),
    {
        self.lemma_index_parts(t);
    }

    /// The distance between the positions of two tickets less than one period apart.
    pub proof fn lemma_gap(self, r: int, n: int)
        requires
            self.wf(),
            0 < self.capacity,
            0 <= r,
            0 <= n < self.period(),
        ensures
            ({
                let a = self.position(self.index_of(r));
                let b = self.position(self.index_of(r + n));
                n == if a <= b {
                    b - a
                } else {
                    b - a + self.period()
                }
            }),
    {
        self.lemma_position(r);
        self.lemma_position(r + n);
        lemma_mod_step(r, n, self.period());
    }

    /// Tickets keep their slots and indices when whole periods are taken off.
    pub proof fn lemma_shift(self, r: int, k: int)
        requires
            self.wf(),
            0 < self.capacity,
            0 <= r,
            0 <= k,
        ensures
            self.index_of(self.position(self.index_of(r)) + k) == self.index_of(r + k),
            self.ticket_slot(self.position(self.index_of(r)) + k) == self.ticket_slot(r + k),
    {
        let p = self.position(self.index_of(r));
        self.lemma_position(r);
        lemma_add_mod_noop(r, k, self.period());
        lemma_add_mod_noop(p, k, self.period());
        lemma_mod_twice(r, self.period());
        self.lemma_index_parts(p + k);
        self.lemma_index_parts(r + k);
    }
}

} // verus!
