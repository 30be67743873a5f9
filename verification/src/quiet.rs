use crate::error::RingBufferError;
use crate::layout::Layout;
use crate::memory::Memory;
use crate::ops::{ReadOp, WriteOp};
use crate::port::{indices_log, is_read, is_write, Entry};
use crate::ring::{reads, writes};
use vstd::prelude::*;

verus! {

/// The memory after some accesses, when nobody else makes any.
pub open spec fn memory_after<T>(m: Memory<T>, log: Seq<Entry<T>>) -> Memory<T>
    decreases log.len(),
{
    if log.len() == 0 {
        m
    } else {
        log.last().effect(memory_after(m, log.drop_last()))
    }
}

/// Every access found what the ones before it left, starting from memory `m`: nobody else was at
/// work, and no swap failed without need.
pub open spec fn undisturbed<T>(m: Memory<T>, log: Seq<Entry<T>>) -> bool {
    forall|i: int|
        0 <= i < log.len() ==> (#[trigger] log[i]).answers(memory_after(m, log.take(i)))
}

/// Where an access finds what is in the memory, it makes of the memory and of a read what one step of
/// the read does.
pub proof fn lemma_read_goes_on<T>(
    layout: Layout,
    m: Memory<T>,
    op: ReadOp<T>,
    entry: Entry<T>,
    next: ReadOp<T>,
)
    requires
        layout.wf(),
        layout.capacity > 0,
        m.fits(layout),
        op.fits(layout),
        op.ready(layout, m),
        entry.answers(m),
        op.goes_on(layout, entry, next),
    ensures
        (entry.effect(m), next) == op.step(layout, m),
{
    layout.lemma_laps();
    match op {
        ReadOp::LoadStamp { idx } => layout.lemma_index(idx as int),
        ReadOp::Claim { idx } => layout.lemma_index(idx as int),
        ReadOp::Take { idx } => layout.lemma_index(idx as int),
        ReadOp::Release { idx, value } => layout.lemma_index(idx as int),
        _ => {},
    }
}

/// The same of a write.
pub proof fn lemma_write_goes_on<T>(
    layout: Layout,
    m: Memory<T>,
    op: WriteOp<T>,
    entry: Entry<T>,
    next: WriteOp<T>,
)
    requires
        layout.wf(),
        layout.capacity > 0,
        m.fits(layout),
        op.fits(layout),
        entry.answers(m),
        op.goes_on(layout, entry, next),
    ensures
        (entry.effect(m), next) == op.step(layout, m),
{
    layout.lemma_laps();
    match op {
        WriteOp::LoadStamp { idx, value } => layout.lemma_index(idx as int),
        WriteOp::Claim { idx, value } => layout.lemma_index(idx as int),
        WriteOp::Put { idx, value } => layout.lemma_index(idx as int),
        WriteOp::Publish { idx } => layout.lemma_index(idx as int),
        _ => {},
    }
}

/// What is left to do for a read that nobody disturbs.
pub open spec fn read_rank<T>(op: ReadOp<T>) -> int {
    match op {
        ReadOp::LoadIndex => 5,
        ReadOp::LoadStamp { idx } => 4,
        ReadOp::LoadWriteIndex { idx } => 3,
        ReadOp::Claim { idx } => 3,
        ReadOp::Take { idx } => 2,
        ReadOp::Release { idx, value } => 1,
        ReadOp::Done(r) => 0,
    }
}

/// Where a read that nobody disturbs is, when it found the ring at rest with memory `m`.
pub open spec fn read_alone<T>(layout: Layout, m: Memory<T>, now: Memory<T>, op: ReadOp<T>) -> bool {
    let idx0 = m.read_idx;
    let s = layout.slot_of(idx0 as int);
    let claimed = Memory { read_idx: layout.next_index(idx0 as int) as usize, ..m };
    let taken = Memory { data: m.data.update(s, None), ..claimed };
    let released = Memory {
        stamps: m.stamps.update(s, (layout.one_lap_on(idx0 as int) + 1) as usize),
        ..taken
    };
    let filled = m.stamps[s] == idx0;
    match op {
        ReadOp::LoadIndex => now == m,
        ReadOp::LoadStamp { idx } => now == m && idx == idx0,
        ReadOp::LoadWriteIndex { idx } => now == m && idx == idx0 && !filled,
        ReadOp::Claim { idx } => now == m && idx == idx0 && filled,
        ReadOp::Take { idx } => now == claimed && idx == idx0 && filled,
        ReadOp::Release { idx, value } => now == taken && idx == idx0 && filled && value
            == m.data[s]->0,
        ReadOp::Done(Ok(value)) => now == released && filled && value == m.data[s]->0,
        ReadOp::Done(Err(e)) => now == m && !filled && m.write_idx == m.read_idx && e
            == RingBufferError::Empty,
    }
}

/// A read that nobody disturbs goes on, and ends with the oldest item or with `Empty`.
pub proof fn lemma_read_alone<T>(layout: Layout, m: Memory<T>, now: Memory<T>, op: ReadOp<T>)
    requires
        layout.wf(),
        layout.capacity > 0,
        m.at_rest(layout),
        now.fits(layout),
        read_alone(layout, m, now, op),
    ensures
        op.fits(layout),
        op.ready(layout, now),
        ({
            let (after, next) = op.step(layout, now);
            op !is Done ==> read_alone(layout, m, after, next) && read_rank(next) < read_rank(op)
        }),
        op matches ReadOp::Done(result) ==> {
            &&& now.at_rest(layout)
            &&& reads(m.contents(layout), result, now.contents(layout))
            &&& result is Err ==> now == m
        },
{
    let r = layout.position(m.read_idx as int);
    let n = m.count(layout);
    layout.lemma_laps();
    layout.lemma_ticket(r);
    layout.lemma_gap(r, n);
    if n > 0 {
        assert(m.filled(layout, r));
    } else {
        assert(m.vacant(layout, r));
    }
    if op is Done && n > 0 {
        layout.lemma_next_ticket(r);
        layout.lemma_next_lap(r);
        assert(now.holds(layout, r + 1, n - 1)) by {
            assert forall|t: int| r + 1 <= t < r + n implies #[trigger] now.filled(layout, t) by {
                assert(m.filled(layout, t));
                layout.lemma_ticket(t);
                if layout.ticket_slot(t) == layout.ticket_slot(r) {
                    layout.lemma_same_slot(r, t);
                }
            }
            assert forall|t: int| r + n <= t < r + 1 + layout.capacity implies #[trigger] now.vacant(
                layout,
                t,
            ) by {
                layout.lemma_ticket(t);
                if t < r + layout.capacity {
                    assert(m.vacant(layout, t));
                    if layout.ticket_slot(t) == layout.ticket_slot(r) {
                        layout.lemma_same_slot(r, t);
                    }
                }
            }
        }
        now.lemma_renumber(layout, r + 1, n - 1);
        assert forall|k: int| 0 <= k < n - 1 implies now.contents(layout)[k] == m.contents(
            layout,
        ).drop_first()[k] by {
            layout.lemma_ticket(r + 1 + k);
            if layout.ticket_slot(r + 1 + k) == layout.ticket_slot(r) {
                layout.lemma_same_slot(r, r + 1 + k);
            }
        }
        assert(now.contents(layout) =~= m.contents(layout).drop_first());
    }
}

/// What is left to do for a write that nobody disturbs.
pub open spec fn write_rank<T>(op: WriteOp<T>) -> int {
    match op {
        WriteOp::LoadIndex { value } => 5,
        WriteOp::LoadStamp { idx, value } => 4,
        WriteOp::LoadReadIndex { idx, value } => 3,
        WriteOp::Claim { idx, value } => 3,
        WriteOp::Put { idx, value } => 2,
        WriteOp::Publish { idx } => 1,
        WriteOp::Done(r) => 0,
    }
}

/// Where a write of `v` that nobody disturbs is, when it found the ring at rest with memory `m`.
pub open spec fn write_alone<T>(layout: Layout, m: Memory<T>, v: T, now: Memory<T>, op: WriteOp<T>) -> bool {
    let idx0 = m.write_idx;
    let s = layout.slot_of(idx0 as int);
    let claimed = Memory { write_idx: layout.next_index(idx0 as int) as usize, ..m };
    let stored = Memory { data: m.data.update(s, Some(v)), ..claimed };
    let published = Memory { stamps: m.stamps.update(s, idx0), ..stored };
    let vacant = m.stamps[s] == idx0 + 1;
    match op {
        WriteOp::LoadIndex { value } => now == m && value == v,
        WriteOp::LoadStamp { idx, value } => now == m && idx == idx0 && value == v,
        WriteOp::LoadReadIndex { idx, value } => now == m && idx == idx0 && value == v && !vacant,
        WriteOp::Claim { idx, value } => now == m && idx == idx0 && value == v && vacant,
        WriteOp::Put { idx, value } => now == claimed && idx == idx0 && value == v && vacant,
        WriteOp::Publish { idx } => now == stored && idx == idx0 && vacant,
        WriteOp::Done(Ok(unit)) => now == published && vacant && unit == (),
        WriteOp::Done(Err(e)) => now == m && !vacant && e == RingBufferError::Full,
    }
}

/// A write that nobody disturbs goes on, and ends with the item stored or with `Full`.
pub proof fn lemma_write_alone<T>(layout: Layout, m: Memory<T>, v: T, now: Memory<T>, op: WriteOp<T>)
    requires
        layout.wf(),
        layout.capacity > 0,
        m.at_rest(layout),
        now.fits(layout),
        write_alone(layout, m, v, now, op),
    ensures
        op.fits(layout),
        ({
            let (after, next) = op.step(layout, now);
            op !is Done ==> write_alone(layout, m, v, after, next) && write_rank(next)
                < write_rank(op)
        }),
        op matches WriteOp::Done(result) ==> {
            &&& now.at_rest(layout)
            &&& writes(layout.capacity as nat, m.contents(layout), v, result, now.contents(layout))
            &&& result is Err ==> now == m
        },
{
    let r = layout.position(m.read_idx as int);
    let n = m.count(layout);
    let w = r + n;
    layout.lemma_laps();
    layout.lemma_ticket(r);
    layout.lemma_ticket(w);
    layout.lemma_next_lap(r);
    if n < layout.capacity {
        assert(m.vacant(layout, w));
    } else {
        assert(m.filled(layout, r));
    }
    if op is Done && n < layout.capacity {
        layout.lemma_next_ticket(w);
        assert(now.holds(layout, r, n + 1)) by {
            assert forall|t: int| r <= t < r + n + 1 implies #[trigger] now.filled(layout, t) by {
                layout.lemma_ticket(t);
                if t < w {
                    assert(m.filled(layout, t));
                    if layout.ticket_slot(t) == layout.ticket_slot(w) {
                        layout.lemma_same_slot(t, w);
                    }
                }
            }
            assert forall|t: int| r + n + 1 <= t < r + layout.capacity implies #[trigger] now.vacant(
                layout,
                t,
            ) by {
                layout.lemma_ticket(t);
                assert(m.vacant(layout, t));
                if layout.ticket_slot(t) == layout.ticket_slot(w) {
                    layout.lemma_same_slot(w, t);
                }
            }
        }
        now.lemma_renumber(layout, r, n + 1);
        assert forall|k: int| 0 <= k < n + 1 implies now.contents(layout)[k] == m.contents(
            layout,
        ).push(v)[k] by {
            layout.lemma_ticket(r + k);
            if k < n && layout.ticket_slot(r + k) == layout.ticket_slot(w) {
                layout.lemma_same_slot(r + k, w);
            }
        }
        assert(now.contents(layout) =~= m.contents(layout).push(v));
    }
}

/// Where the accesses of `log` were the only ones on a ring at rest, a read that they made from start
/// to `end` took out the oldest item, or reported `Empty`, and was over after five of them.
pub open spec fn reads_alone<T>(layout: Layout, log: Seq<Entry<T>>, end: ReadOp<T>) -> bool {
    forall|m: Memory<T>|
        m.at_rest(layout) && #[trigger] undisturbed(m, log) ==> {
            &&& log.len() >= 5 ==> end is Done
            &&& end matches ReadOp::Done(result) ==> memory_after(m, log).at_rest(layout) && reads(
                m.contents(layout),
                result,
                memory_after(m, log).contents(layout),
            )
        }
}

/// Where the accesses of `log` were the only ones on a ring at rest, a write of `v` that they made
/// from start to `end` put it behind the other items, or reported `Full`, and was over after five of
/// them.
pub open spec fn writes_alone<T>(
    layout: Layout,
    v: T,
    log: Seq<Entry<T>>,
    end: WriteOp<T>,
) -> bool {
    forall|m: Memory<T>|
        m.at_rest(layout) && #[trigger] undisturbed(m, log) ==> {
            &&& log.len() >= 5 ==> end is Done
            &&& end matches WriteOp::Done(result) ==> memory_after(m, log).at_rest(layout)
                && writes(
                layout.capacity as nat,
                m.contents(layout),
                v,
                result,
                memory_after(m, log).contents(layout),
            )
        }
}

/// Where the accesses of `log` were the only ones on a ring at rest, they changed nothing, and `b`
/// says whether every slot holds an item.
pub open spec fn tells_full_alone<T>(layout: Layout, log: Seq<Entry<T>>, b: bool) -> bool {
    forall|m: Memory<T>|
        m.at_rest(layout) && #[trigger] undisturbed(m, log) ==> memory_after(m, log) == m && b == (
        m.contents(layout).len() == layout.capacity && layout.capacity > 0)
}

/// Where the accesses of `log` were the only ones on a ring at rest, they changed nothing, and `b`
/// says whether no slot holds an item.
pub open spec fn tells_empty_alone<T>(layout: Layout, log: Seq<Entry<T>>, b: bool) -> bool {
    forall|m: Memory<T>|
        m.at_rest(layout) && #[trigger] undisturbed(m, log) ==> memory_after(m, log) == m && b == (
        m.contents(layout).len() == 0)
}

/// How far a read that nobody disturbs is after the first `k` of its accesses.
proof fn lemma_read_is_alone<T>(
    layout: Layout,
    m: Memory<T>,
    ops: Seq<ReadOp<T>>,
    log: Seq<Entry<T>>,
    k: int,
)
    requires
        layout.wf(),
        layout.capacity > 0,
        m.at_rest(layout),
        is_read(layout, ops, log),
        ops.first() == ReadOp::<T>::LoadIndex,
        undisturbed(m, log),
        0 <= k <= log.len(),
    ensures
        memory_after(m, log.take(k)).fits(layout),
        read_alone(layout, m, memory_after(m, log.take(k)), ops[k]),
        read_rank(ops[k]) <= 5 - k,
    decreases k,
{
    if k == 0 {
        assert(log.take(0) =~= Seq::<Entry<T>>::empty());
    } else {
        lemma_read_is_alone(layout, m, ops, log, k - 1);
        let now = memory_after(m, log.take(k - 1));
        lemma_read_alone(layout, m, now, ops[k - 1]);
        assert(ops[k - 1] !is Done);
        assert(log[k - 1].answers(now));
        assert(ops[k - 1].goes_on(layout, log[k - 1], ops[k]));
        lemma_read_goes_on(layout, now, ops[k - 1], log[k - 1], ops[k]);
        assert(log.take(k).last() == log[k - 1]);
        assert(log.take(k).drop_last() =~= log.take(k - 1));
        lemma_read_keeps_shape(layout, now, ops[k - 1]);
    }
}

/// A step of a read keeps the shape of the memory.
proof fn lemma_read_keeps_shape<T>(layout: Layout, m: Memory<T>, op: ReadOp<T>)
    requires
        layout.wf(),
        layout.capacity > 0,
        m.fits(layout),
        op.fits(layout),
    ensures
        op.step(layout, m).0.fits(layout),
{
    layout.lemma_laps();
    if let ReadOp::Claim { idx, .. } = op {
        layout.lemma_index(idx as int);
    }
}

/// On a ring at rest, with nobody else at work, a read takes out the oldest item, or reports `Empty`
/// where there is none, and it leaves the other items as they are. It is over after five accesses at
/// the latest.
pub proof fn law_read_alone_takes_the_oldest<T>(
    layout: Layout,
    m: Memory<T>,
    ops: Seq<ReadOp<T>>,
    log: Seq<Entry<T>>,
)
    requires
        layout.wf(),
        layout.capacity > 0,
        m.at_rest(layout),
        is_read(layout, ops, log),
        ops.first() == ReadOp::<T>::LoadIndex,
        undisturbed(m, log),
    ensures
        ops.last() matches ReadOp::Done(result) ==> {
            &&& memory_after(m, log).at_rest(layout)
            &&& reads(m.contents(layout), result, memory_after(m, log).contents(layout))
        },
        log.len() <= 5,
        log.len() == 5 ==> ops.last() is Done,
{
    let n = log.len() as int;
    lemma_read_is_alone(layout, m, ops, log, n);
    assert(log.take(n) =~= log);
    lemma_read_alone(layout, m, memory_after(m, log), ops[n]);
    if n > 5 {
        lemma_read_is_alone(layout, m, ops, log, 5);
        assert(ops[5] is Done);
    }
}

/// How far a write that nobody disturbs is after the first `k` of its accesses.
proof fn lemma_write_is_alone<T>(
    layout: Layout,
    m: Memory<T>,
    v: T,
    ops: Seq<WriteOp<T>>,
    log: Seq<Entry<T>>,
    k: int,
)
    requires
        layout.wf(),
        layout.capacity > 0,
        m.at_rest(layout),
        is_write(layout, ops, log),
        ops.first() == (WriteOp::<T>::LoadIndex { value: v }),
        undisturbed(m, log),
        0 <= k <= log.len(),
    ensures
        memory_after(m, log.take(k)).fits(layout),
        write_alone(layout, m, v, memory_after(m, log.take(k)), ops[k]),
        write_rank(ops[k]) <= 5 - k,
    decreases k,
{
    if k == 0 {
        assert(log.take(0) =~= Seq::<Entry<T>>::empty());
    } else {
        lemma_write_is_alone(layout, m, v, ops, log, k - 1);
        let now = memory_after(m, log.take(k - 1));
        lemma_write_alone(layout, m, v, now, ops[k - 1]);
        assert(ops[k - 1] !is Done);
        assert(log[k - 1].answers(now));
        assert(ops[k - 1].goes_on(layout, log[k - 1], ops[k]));
        lemma_write_goes_on(layout, now, ops[k - 1], log[k - 1], ops[k]);
        assert(log.take(k).last() == log[k - 1]);
        assert(log.take(k).drop_last() =~= log.take(k - 1));
        lemma_write_keeps_shape(layout, now, ops[k - 1]);
    }
}

/// A step of a write keeps the shape of the memory.
proof fn lemma_write_keeps_shape<T>(layout: Layout, m: Memory<T>, op: WriteOp<T>)
    requires
        layout.wf(),
        layout.capacity > 0,
        m.fits(layout),
        op.fits(layout),
    ensures
        op.step(layout, m).0.fits(layout),
{
    layout.lemma_laps();
    if let WriteOp::Claim { idx, .. } = op {
        layout.lemma_index(idx as int);
    }
}

/// On a ring at rest, with nobody else at work, a write puts its value behind the items that are
/// there, or reports `Full` where there is an item in every slot, and leaves them as they are. It is
/// over after five accesses at the latest.
pub proof fn law_write_alone_appends<T>(
    layout: Layout,
    m: Memory<T>,
    v: T,
    ops: Seq<WriteOp<T>>,
    log: Seq<Entry<T>>,
)
    requires
        layout.wf(),
        layout.capacity > 0,
        m.at_rest(layout),
        is_write(layout, ops, log),
        ops.first() == (WriteOp::<T>::LoadIndex { value: v }),
        undisturbed(m, log),
    ensures
        ops.last() matches WriteOp::Done(result) ==> {
            &&& memory_after(m, log).at_rest(layout)
            &&& writes(
                layout.capacity as nat,
                m.contents(layout),
                v,
                result,
                memory_after(m, log).contents(layout),
            )
        },
        log.len() <= 5,
        log.len() == 5 ==> ops.last() is Done,
{
    let n = log.len() as int;
    lemma_write_is_alone(layout, m, v, ops, log, n);
    assert(log.take(n) =~= log);
    lemma_write_alone(layout, m, v, memory_after(m, log), ops[n]);
    if n > 5 {
        lemma_write_is_alone(layout, m, v, ops, log, 5);
        assert(ops[5] is Done);
    }
}

/// On a ring at rest, with nobody else at work, the two indices that are loaded tell exactly whether
/// every slot holds an item and whether none does, and loading them changes nothing.
pub proof fn law_indices_alone_tell_full_and_empty<T>(
    layout: Layout,
    m: Memory<T>,
    r: usize,
    w: usize,
)
    requires
        layout.wf(),
        m.at_rest(layout),
        undisturbed(m, indices_log(r, w)),
    ensures
        layout.stands_for_full(r, w) <==> m.contents(layout).len() == layout.capacity
            && layout.capacity > 0,
        w == r <==> m.contents(layout).len() == 0,
        memory_after(m, indices_log(r, w)) == m,
{
    let log = indices_log::<T>(r, w);
    let first = log.take(1);
    assert(log[0].answers(memory_after(m, log.take(0))));
    assert(log[1].answers(memory_after(m, first)));
    assert(log.drop_last() =~= first);
    assert(first.drop_last() =~= log.take(0));
    assert(memory_after(m, log.take(0)) == m);
    assert(memory_after(m, first) == m);
    assert(w == m.write_idx && r == m.read_idx);
    let p = layout.position(r as int);
    let n = m.count(layout);
    layout.lemma_laps();
    if layout.capacity > 0 {
        layout.lemma_ticket(p);
        layout.lemma_ticket(p + n);
        layout.lemma_gap(p, n);
        if n == layout.capacity {
            layout.lemma_next_lap(p);
        } else if layout.ticket_slot(p) == layout.ticket_slot(p + n) {
            layout.lemma_same_slot(p, p + n);
        }
    }
}

/// A new ring is at rest and holds nothing: whoever is alone with it finds it empty and not full, and
/// reads `Empty`.
pub proof fn law_new_ring_holds_nothing<T>(layout: Layout)
    requires
        layout.wf(),
    ensures
        Memory::<T>::initial(layout).at_rest(layout),
        Memory::<T>::initial(layout).contents(layout) == Seq::<T>::empty(),
{
    Memory::<T>::lemma_initial(layout);
}

/// Accesses one after the other: what the second part of them finds and leaves is what it finds and
/// leaves on the memory that the first part left.
pub proof fn law_logs_follow_each_other<T>(m: Memory<T>, a: Seq<Entry<T>>, b: Seq<Entry<T>>)
    ensures
        memory_after(m, a + b) == memory_after(memory_after(m, a), b),
        undisturbed(m, a + b) <==> undisturbed(m, a) && undisturbed(memory_after(m, a), b),
{
    lemma_memory_after_both(m, a, b);
    let both = a + b;
    let mid = memory_after(m, a);
    if undisturbed(m, both) {
        assert forall|i: int| 0 <= i < a.len() implies (#[trigger] a[i]).answers(
            memory_after(m, a.take(i)),
        ) by {
            assert(both[i].answers(memory_after(m, both.take(i))));
            assert(both.take(i) =~= a.take(i));
        }
        assert forall|i: int| 0 <= i < b.len() implies (#[trigger] b[i]).answers(
            memory_after(mid, b.take(i)),
        ) by {
            assert(both[a.len() + i].answers(memory_after(m, both.take(a.len() + i))));
            assert(both.take(a.len() + i) =~= a + b.take(i));
            lemma_memory_after_both(m, a, b.take(i));
        }
    }
    if undisturbed(m, a) && undisturbed(mid, b) {
        assert forall|i: int| 0 <= i < both.len() implies (#[trigger] both[i]).answers(
            memory_after(m, both.take(i)),
        ) by {
            if i < a.len() {
                assert(a[i].answers(memory_after(m, a.take(i))));
                assert(both.take(i) =~= a.take(i));
            } else {
                let j = i - a.len();
                assert(b[j].answers(memory_after(mid, b.take(j))));
                assert(both.take(i) =~= a + b.take(j));
                lemma_memory_after_both(m, a, b.take(j));
            }
        }
    }
}

/// What two parts of a log make of a memory.
proof fn lemma_memory_after_both<T>(m: Memory<T>, a: Seq<Entry<T>>, b: Seq<Entry<T>>)
    ensures
        memory_after(m, a + b) == memory_after(memory_after(m, a), b),
    decreases b.len(),
{
    if b.len() == 0 {
        assert(a + b =~= a);
    } else {
        assert((a + b).last() == b.last());
        assert((a + b).drop_last() =~= a + b.drop_last());
        lemma_memory_after_both(m, a, b.drop_last());
    }
}

/// A write and then a read, on a ring at rest with nobody else at work. The write is accepted exactly
/// where there is room. The read returns the item that was oldest before the write, whether the write
/// was accepted or not, and on an empty ring the value that was written. All other items stay, in
/// their order, the new one last.
pub proof fn law_write_then_read_alone<T>(
    layout: Layout,
    m: Memory<T>,
    v: T,
    written: Result<(), RingBufferError>,
    read: Result<T, RingBufferError>,
    write_ops: Seq<WriteOp<T>>,
    write_log: Seq<Entry<T>>,
    read_ops: Seq<ReadOp<T>>,
    read_log: Seq<Entry<T>>,
)
    requires
        layout.wf(),
        layout.capacity > 0,
        m.at_rest(layout),
        undisturbed(m, write_log + read_log),
        is_write(layout, write_ops, write_log),
        write_ops.first() == (WriteOp::<T>::LoadIndex { value: v }),
        write_ops.last() == WriteOp::<T>::Done(written),
        is_read(layout, read_ops, read_log),
        read_ops.first() == ReadOp::<T>::LoadIndex,
        read_ops.last() == ReadOp::<T>::Done(read),
    ensures
        written is Ok <==> m.contents(layout).len() < layout.capacity,
        written is Err ==> written == Err::<(), RingBufferError>(RingBufferError::Full),
        read == Ok::<T, RingBufferError>(
            if m.contents(layout).len() > 0 {
                m.contents(layout)[0]
            } else {
                v
            },
        ),
        memory_after(m, write_log + read_log).contents(layout) == if written is Ok {
            m.contents(layout).push(v).drop_first()
        } else {
            m.contents(layout).drop_first()
        },
{
    law_logs_follow_each_other(m, write_log, read_log);
    law_write_alone_appends(layout, m, v, write_ops, write_log);
    law_read_alone_takes_the_oldest(
        layout,
        memory_after(m, write_log),
        read_ops,
        read_log,
    );
}

} // verus!
