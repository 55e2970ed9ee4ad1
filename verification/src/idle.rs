//! Idle-time synthesis: one bar per gap in each worker thread's activity.
//!
//! The run's tasks, plus one synthetic zero-width marker per thread at the
//! last recorded time (to flush trailing idleness), are replayed in start
//! order — ties keep record order.  Each thread tracks when its previous
//! activity ended; a replayed start beyond that point emits an idle
//! rectangle spanning the gap, at the thread's own row and a horizontal
//! cursor that advances by the gap's width.

use vstd::prelude::*;
use vstd::relations::{sorted_by, total_ordering};
use vstd::multiset::Multiset;
use vstd::seq_lib::lemma_sorted_unique;
use vstd::pervasive::VecAdditionalExecFns;
use crate::trace::TaskLog;
use crate::geometry::{color_of, thread_color, Rectangle, OPAQUE, UNIT, VERTICAL_GAP};
use crate::fork_join_graph::identity_ids;

verus! {

broadcast use vstd::seq_lib::group_to_multiset_ensures;

/// One timeline entry: executing thread, start time, end time.
pub type Stint = (usize, u64, u64);

/// The earliest start time of the run.
pub open spec fn first_of(tasks: Seq<TaskLog>) -> u64
    decreases tasks.len(),
{
    if tasks.len() == 0 {
        0
    } else if tasks.len() == 1 {
        tasks[0].start_time
    } else {
        let rest = first_of(tasks.drop_last());
        if tasks.last().start_time < rest {
            tasks.last().start_time
        } else {
            rest
        }
    }
}

/// The latest end time of the run.
pub open spec fn last_of(tasks: Seq<TaskLog>) -> u64
    decreases tasks.len(),
{
    if tasks.len() == 0 {
        0
    } else if tasks.len() == 1 {
        tasks[0].end_time
    } else {
        let rest = last_of(tasks.drop_last());
        if tasks.last().end_time > rest {
            tasks.last().end_time
        } else {
            rest
        }
    }
}

/// The raw timeline: every task as a stint, then one synthetic marker per
/// thread at the last recorded time.
pub open spec fn timeline_of(tasks: Seq<TaskLog>, threads: nat) -> Seq<Stint> {
    Seq::new(tasks.len(), |i: int| (tasks[i].thread_id, tasks[i].start_time, tasks[i].end_time))
        + Seq::new(
        threads,
        |i: int| (i as usize, last_of(tasks), (last_of(tasks) + 1) as u64),
    )
}

/// Replay order over timeline indices: by start time, ties by index, so
/// equal starts keep record order.
pub open spec fn tl_order(tl: Seq<Stint>) -> spec_fn(usize, usize) -> bool {
    |a: usize, b: usize| tl[a as int].1 < tl[b as int].1 || (tl[a as int].1 == tl[b as int].1 && a
        <= b)
}

/// The timeline sorted for replay.
pub open spec fn sorted_timeline(tl: Seq<Stint>) -> Seq<Stint> {
    let ids = identity_ids(tl.len()).sort_by(tl_order(tl));
    Seq::new(tl.len(), |k: int| tl[ids[k] as int])
}

/// The replay state after `k` stints: per thread, when its previous
/// activity ended and where its cursor stands, plus the bars emitted.
pub struct IdleState {
    /// Per thread: end of its last replayed activity.
    pub prev: Seq<u64>,
    /// Per thread: horizontal cursor of its idle row.
    pub xs: Seq<u64>,
    /// Idle bars emitted so far, in emission order.
    pub rects: Seq<Rectangle>,
}

/// One idle bar: the thread's color at its row, spanning the gap, tagged
/// with the gap's time interval.
pub open spec fn idle_rect(origin: (u64, u64), tid: int, x: u64, gap_start: u64, gap_end: u64) -> Rectangle {
    Rectangle {
        color: color_of(tid),
        opacity: OPAQUE,
        x,
        y: (origin.1 + tid * ((UNIT + VERTICAL_GAP) as int)) as u64,
        width: ((gap_end - gap_start) * (UNIT as int)) as u64,
        height: UNIT,
        animation: Option::Some((gap_start, gap_end)),
    }
}

/// The replay after the first `k` entries of the sorted timeline.
pub open spec fn idle_state(
    sorted: Seq<Stint>,
    first: u64,
    origin: (u64, u64),
    threads: nat,
    k: int,
) -> IdleState
    decreases k,
{
    if k <= 0 {
        IdleState {
            prev: Seq::new(threads, |t: int| first),
            xs: Seq::new(threads, |t: int| origin.0),
            rects: Seq::empty(),
        }
    } else {
        let s = idle_state(sorted, first, origin, threads, k - 1);
        let tid = sorted[k - 1].0;
        let start = sorted[k - 1].1;
        let end = sorted[k - 1].2;
        if start > s.prev[tid as int] {
            IdleState {
                prev: s.prev.update(tid as int, end),
                xs: s.xs.update(
                    tid as int,
                    (s.xs[tid as int] + (start - s.prev[tid as int]) * (UNIT as int)) as u64,
                ),
                rects: s.rects.push(
                    idle_rect(origin, tid as int, s.xs[tid as int], s.prev[tid as int], start),
                ),
            }
        } else {
            IdleState { prev: s.prev.update(tid as int, end), xs: s.xs, rects: s.rects }
        }
    }
}

/// All idle bars of a run, in emission order.
pub open spec fn idle_rects_of(tasks: Seq<TaskLog>, origin: (u64, u64), threads: nat) -> Seq<
    Rectangle,
> {
    let tl = timeline_of(tasks, threads);
    idle_state(sorted_timeline(tl), first_of(tasks), origin, threads, tl.len() as int).rects
}

pub proof fn lemma_tl_order_total(tl: Seq<Stint>)
    ensures
        total_ordering(tl_order(tl)),
{
    let r = tl_order(tl);
    assert forall|a: usize| #[trigger] r(a, a) by {}
    assert forall|a: usize, b: usize, c: usize| #[trigger] r(a, b) && #[trigger] r(b, c) implies r(
        a,
        c,
    ) by {}
    assert forall|a: usize, b: usize| #[trigger] r(a, b) && #[trigger] r(b, a) implies a == b by {}
    assert forall|a: usize, b: usize| #[trigger] r(a, b) || #[trigger] r(b, a) by {}
}

/// Bounds of every timeline entry: a real thread, a start between the
/// run's first and last times, and an end no earlier than its start.
pub open spec fn stint_ok(tasks: Seq<TaskLog>, threads: nat, s: Stint) -> bool {
    &&& (s.0 as int) < threads
    &&& first_of(tasks) <= s.1
    &&& s.1 <= last_of(tasks)
    &&& s.1 <= s.2
}

/// The latest end is bounded by any bound on every end.
pub proof fn lemma_last_of_bound(tasks: Seq<TaskLog>, bound: u64)
    requires
        tasks.len() >= 1,
        forall|j: int| 0 <= j < tasks.len() ==> (#[trigger] tasks[j]).end_time <= bound,
    ensures
        last_of(tasks) <= bound,
    decreases tasks.len(),
{
    if tasks.len() > 1 {
        lemma_last_of_bound(tasks.drop_last(), bound);
    }
}

pub proof fn lemma_first_last(tasks: Seq<TaskLog>, i: int)
    requires
        0 <= i < tasks.len(),
        forall|j: int|
            0 <= j < tasks.len() ==> (#[trigger] tasks[j]).start_time <= tasks[j].end_time,
    ensures
        first_of(tasks) <= tasks[i].start_time,
        tasks[i].end_time <= last_of(tasks),
        first_of(tasks) <= last_of(tasks),
    decreases tasks.len(),
{
    if tasks.len() == 1 {
    } else {
        if i < tasks.len() - 1 {
            lemma_first_last(tasks.drop_last(), i);
        } else {
            lemma_first_last(tasks.drop_last(), tasks.len() - 2);
        }
    }
}


/// Every entry of the sorted timeline is a timeline entry, and in bounds:
/// its thread is real, its start lies between the run's first and last
/// times, and it ends no earlier than it starts.
pub proof fn lemma_sorted_timeline_entries(tasks: Seq<TaskLog>, threads: nat)
    requires
        tasks.len() >= 1,
        last_of(tasks) < u64::MAX,
        forall|j: int|
            0 <= j < tasks.len() ==> (#[trigger] tasks[j]).start_time <= tasks[j].end_time,
        forall|j: int| 0 <= j < tasks.len() ==> ((#[trigger] tasks[j]).thread_id as int) < threads,
    ensures
        sorted_timeline(timeline_of(tasks, threads)).len() == tasks.len() + threads,
        forall|k: int|
            0 <= k < tasks.len() + threads ==> stint_ok(
                tasks,
                threads,
                #[trigger] sorted_timeline(timeline_of(tasks, threads))[k],
            ),
{
    broadcast use vstd::multiset::group_multiset_axioms;

    let tl = timeline_of(tasks, threads);
    let m = tl.len();
    assert(m == tasks.len() + threads);
    assert forall|j: int| 0 <= j < m implies stint_ok(tasks, threads, #[trigger] tl[j]) by {
        if j < tasks.len() {
            lemma_first_last(tasks, j);
        } else {
            lemma_first_last(tasks, 0);
        }
    }
    let sids = identity_ids(m).sort_by(tl_order(tl));
    identity_ids(m).lemma_sort_by_ensures(tl_order(tl));
    assert forall|k: int| 0 <= k < tasks.len() + threads implies stint_ok(
        tasks,
        threads,
        #[trigger] sorted_timeline(tl)[k],
    ) by {
        assert(sids.to_multiset() =~= identity_ids(m).to_multiset());
        assert(sids.len() == sids.to_multiset().len());
        assert(identity_ids(m).len() == identity_ids(m).to_multiset().len());
        assert(sids.to_multiset().count(sids[k]) > 0);
        assert(identity_ids(m).contains(sids[k]));
        assert((sids[k] as int) < m);
        assert(sorted_timeline(tl)[k] == tl[sids[k] as int]);
    }
}

/// Computes the earliest start and latest end of a nonempty run.
pub fn find_first_last(tasks: &Vec<TaskLog>) -> (fl: (u64, u64))
    requires
        tasks@.len() >= 1,
    ensures
        fl.0 == first_of(tasks@),
        fl.1 == last_of(tasks@),
{
    let mut first = tasks[0].start_time;
    let mut last = tasks[0].end_time;
    let mut i: usize = 1;
    proof {
        assert(tasks@.subrange(0, 1).len() == 1);
        assert(tasks@.subrange(0, 1)[0] == tasks@[0]);
    }
    while i < tasks.len()
        invariant
            1 <= i <= tasks@.len(),
            first == first_of(tasks@.subrange(0, i as int)),
            last == last_of(tasks@.subrange(0, i as int)),
        decreases tasks@.len() - i,
    {
        let s = tasks[i].start_time;
        let e = tasks[i].end_time;
        proof {
            let pre = tasks@.subrange(0, i as int);
            let post = tasks@.subrange(0, i + 1);
            assert(post.drop_last() =~= pre);
            assert(post.last() == tasks@[i as int]);
            assert(post.len() > 1);
        }
        if s < first {
            first = s;
        }
        if e > last {
            last = e;
        }
        i += 1;
    }
    proof {
        assert(tasks@.subrange(0, tasks@.len() as int) =~= tasks@);
    }
    (first, last)
}

/// Sorts the timeline for replay: ascending start times, ties in record
/// order.
fn sort_timeline(tl: &Vec<Stint>) -> (out: Vec<Stint>)
    ensures
        out@ == sorted_timeline(tl@),
        out@.len() == tl@.len(),
        sorted_by(out@, |a: Stint, b: Stint| a.1 <= b.1),
{
    let m = tl.len();
    let ghost leq = tl_order(tl@);
    proof {
        lemma_tl_order_total(tl@);
    }
    let mut rest: Vec<usize> = Vec::new();
    let mut i: usize = 0;
    while i < m
        invariant
            i <= m,
            rest@ == identity_ids(i as nat),
        decreases m - i,
    {
        rest.push(i);
        i += 1;
        proof {
            assert(rest@ =~= identity_ids(i as nat));
        }
    }
    let mut ids: Vec<usize> = Vec::new();
    while rest.len() > 0
        invariant
            m == tl@.len(),
            leq == tl_order(tl@),
            total_ordering(leq),
            ids@.to_multiset().add(rest@.to_multiset()) == identity_ids(m as nat).to_multiset(),
            sorted_by(ids@, leq),
            forall|a: int, b: int|
                0 <= a < ids@.len() && 0 <= b < rest@.len() ==> leq(
                    #[trigger] ids@[a],
                    #[trigger] rest@[b],
                ),
            forall|a: int| 0 <= a < ids@.len() ==> (#[trigger] ids@[a] as int) < m,
            forall|b: int| 0 <= b < rest@.len() ==> (#[trigger] rest@[b] as int) < m,
        decreases rest@.len(),
    {
        let mut mi: usize = 0;
        let mut j: usize = 1;
        while j < rest.len()
            invariant
                leq == tl_order(tl@),
                total_ordering(leq),
                m == tl@.len(),
                forall|b: int| 0 <= b < rest@.len() ==> (#[trigger] rest@[b] as int) < m,
                (mi as int) < rest@.len(),
                1 <= j <= rest@.len(),
                forall|k: int| 0 <= k < j ==> leq(rest@[mi as int], #[trigger] rest@[k]),
            decreases rest@.len() - j,
        {
            let a = rest[mi];
            let b = rest[j];
            let better = tl[b].1 < tl[a].1 || (tl[b].1 == tl[a].1 && b <= a);
            if better {
                proof {
                    let old_m = mi as int;
                    assert(leq(rest@[j as int], rest@[old_m]));
                    assert forall|k: int| 0 <= k < j + 1 implies leq(
                        rest@[j as int],
                        #[trigger] rest@[k],
                    ) by {
                        if k < j {
                            assert(leq(rest@[old_m], rest@[k]));
                        }
                    }
                }
                mi = j;
            }
            j += 1;
        }
        let x = rest[mi];
        let ghost old_rest = rest@;
        let ghost old_ids = ids@;
        let _ = rest.remove(mi);
        ids.push(x);
        proof {
            assert(old_rest.remove(mi as int).to_multiset() =~= old_rest.to_multiset().remove(x));
            assert(ids@.to_multiset() =~= old_ids.to_multiset().insert(x));
            assert(ids@.to_multiset().add(rest@.to_multiset()) =~= old_ids.to_multiset().add(
                old_rest.to_multiset(),
            ));
            assert forall|a: int, b: int|
                0 <= a < ids@.len() && 0 <= b < rest@.len() implies leq(
                #[trigger] ids@[a],
                #[trigger] rest@[b],
            ) by {
                assert(rest@[b] == if b < mi as int {
                    old_rest[b]
                } else {
                    old_rest[b + 1]
                });
                if a < old_ids.len() {
                    assert(leq(old_ids[a], rest@[b]));
                } else {
                    assert(ids@[a] == x);
                    assert(leq(old_rest[mi as int], rest@[b]));
                }
            }
            assert(sorted_by(ids@, leq)) by {
                assert forall|p: int, q: int| 0 <= p < q < ids@.len() implies leq(
                    ids@[p],
                    ids@[q],
                ) by {
                    if q < old_ids.len() {
                        assert(leq(old_ids[p], old_ids[q]));
                    } else {
                        assert(ids@[q] == x);
                        assert(leq(old_ids[p], old_rest[mi as int]));
                    }
                }
            }
        }
    }
    proof {
        assert(rest@.to_multiset() =~= Multiset::empty()) by {
            assert(rest@ =~= Seq::<usize>::empty());
        }
        assert(ids@.to_multiset() == identity_ids(m as nat).to_multiset());
        identity_ids(m as nat).lemma_sort_by_ensures(leq);
        lemma_sorted_unique(ids@, identity_ids(m as nat).sort_by(leq), leq);
        assert(ids@ == identity_ids(m as nat).sort_by(leq));
        assert(ids@.len() == ids@.to_multiset().len());
        assert(identity_ids(m as nat).len() == identity_ids(m as nat).to_multiset().len());
    }
    // map the sorted indices back to stints
    let mut out: Vec<Stint> = Vec::new();
    let mut k: usize = 0;
    while k < ids.len()
        invariant
            k <= ids@.len(),
            ids@.len() == m,
            m == tl@.len(),
            ids@ == identity_ids(m as nat).sort_by(tl_order(tl@)),
            forall|a: int| 0 <= a < ids@.len() ==> (#[trigger] ids@[a] as int) < m,
            out@.len() == k,
            forall|a: int| 0 <= a < k ==> #[trigger] out@[a] == tl@[ids@[a] as int],
        decreases ids@.len() - k,
    {
        out.push(tl[ids[k]]);
        k += 1;
    }
    proof {
        assert(out@ =~= sorted_timeline(tl@));
        let sids = identity_ids(m as nat).sort_by(tl_order(tl@));
        identity_ids(m as nat).lemma_sort_by_ensures(tl_order(tl@));
        assert(sids == ids@);
        assert(sorted_by(out@, |a: Stint, b: Stint| a.1 <= b.1)) by {
            assert forall|p: int, q: int| 0 <= p < q < out@.len() implies (out@[p]).1
                <= (out@[q]).1 by {
                assert(sorted_by(sids, tl_order(tl@)));
                assert(tl_order(tl@)(sids[p], sids[q]));
            }
        }
    }
    out
}


/// Replays a run's timeline and appends one idle bar per gap in each
/// worker thread's recorded activity, exactly as the replay fold emits
/// them.
#[verifier::rlimit(60)]
pub fn compute_idle_times(
    tasks: &Vec<TaskLog>,
    starting_position: (u64, u64),
    threads_number: usize,
    rectangles: &mut Vec<Rectangle>,
)
    requires
        tasks@.len() >= 1,
        forall|j: int|
            0 <= j < tasks@.len() ==> (#[trigger] tasks@[j]).start_time <= tasks@[j].end_time,
        forall|j: int|
            0 <= j < tasks@.len() ==> ((#[trigger] tasks@[j]).thread_id as int) < (
            threads_number as int),
        last_of(tasks@) < u64::MAX,
        (starting_position.0 as int) + (UNIT as int) * (last_of(tasks@) - first_of(tasks@))
            <= u64::MAX,
        (starting_position.1 as int) + (threads_number as int) * ((UNIT + VERTICAL_GAP) as int)
            <= u64::MAX,
    ensures
        final(rectangles)@ == old(rectangles)@ + idle_rects_of(
            tasks@,
            starting_position,
            threads_number as nat,
        ),
{
    let tn = threads_number;
    let (first, last) = find_first_last(tasks);
    let mut tl: Vec<Stint> = Vec::new();
    let n = tasks.len();
    let mut i: usize = 0;
    while i < n
        invariant
            i <= n,
            n == tasks@.len(),
            tl@ == Seq::new(
                i as nat,
                |q: int| (tasks@[q].thread_id, tasks@[q].start_time, tasks@[q].end_time),
            ),
        decreases n - i,
    {
        let t = &tasks[i];
        tl.push((t.thread_id, t.start_time, t.end_time));
        i += 1;
        proof {
            assert(tl@ =~= Seq::new(
                i as nat,
                |q: int| (tasks@[q].thread_id, tasks@[q].start_time, tasks@[q].end_time),
            ));
        }
    }
    let mut w: usize = 0;
    while w < tn
        invariant
            w <= tn,
            n == tasks@.len(),
            last == last_of(tasks@),
            last < u64::MAX,
            tl@ == Seq::new(
                n as nat,
                |q: int| (tasks@[q].thread_id, tasks@[q].start_time, tasks@[q].end_time),
            ) + Seq::new(w as nat, |q: int| (q as usize, last_of(tasks@), (last_of(tasks@) + 1) as u64)),
        decreases tn - w,
    {
        tl.push((w, last, last + 1));
        w += 1;
        proof {
            assert(tl@ =~= Seq::new(
                n as nat,
                |q: int| (tasks@[q].thread_id, tasks@[q].start_time, tasks@[q].end_time),
            ) + Seq::new(
                w as nat,
                |q: int| (q as usize, last_of(tasks@), (last_of(tasks@) + 1) as u64),
            ));
        }
    }
    proof {
        assert(tl@ =~= timeline_of(tasks@, tn as nat));
        lemma_sorted_timeline_entries(tasks@, tn as nat);
    }
    let sorted = sort_timeline(&tl);
    let m = sorted.len();
    let mut prev: Vec<u64> = Vec::new();
    let mut xs: Vec<u64> = Vec::new();
    let mut z: usize = 0;
    while z < tn
        invariant
            z <= tn,
            prev@ == Seq::new(z as nat, |t: int| first),
            xs@ == Seq::new(z as nat, |t: int| starting_position.0),
        decreases tn - z,
    {
        prev.push(first);
        xs.push(starting_position.0);
        z += 1;
        proof {
            assert(prev@ =~= Seq::new(z as nat, |t: int| first));
            assert(xs@ =~= Seq::new(z as nat, |t: int| starting_position.0));
        }
    }
    let ghost base = rectangles@;
    let ghost sv = sorted@;
    let ghost mut ls = Seq::new(tn as nat, |t: int| first);
    proof {
        assert(prev@ =~= idle_state(sv, first, starting_position, tn as nat, 0).prev);
        assert(xs@ =~= idle_state(sv, first, starting_position, tn as nat, 0).xs);
        lemma_first_last(tasks@, 0);
    }
    let mut k: usize = 0;
    while k < m
        invariant
            k <= m,
            m == sv.len(),
            sorted@ == sv,
            sv == sorted_timeline(timeline_of(tasks@, tn as nat)),
            m == tasks@.len() + tn,
            first == first_of(tasks@),
            last == last_of(tasks@),
            first <= last,
            last < u64::MAX,
            (starting_position.0 as int) + (UNIT as int) * (last - first) <= u64::MAX,
            (starting_position.1 as int) + (tn as int) * ((UNIT + VERTICAL_GAP) as int)
                <= u64::MAX,
            forall|q: int| 0 <= q < m ==> stint_ok(tasks@, tn as nat, #[trigger] sv[q]),
            sorted_by(sv, |a: Stint, b: Stint| a.1 <= b.1),
            prev@.len() == tn,
            xs@.len() == tn,
            ls.len() == tn,
            prev@ == idle_state(sv, first, starting_position, tn as nat, k as int).prev,
            xs@ == idle_state(sv, first, starting_position, tn as nat, k as int).xs,
            rectangles@ == base + idle_state(sv, first, starting_position, tn as nat, k as int).rects,
            forall|t: int| 0 <= t < tn ==> first <= #[trigger] ls[t],
            forall|t: int| 0 <= t < tn ==> #[trigger] ls[t] <= prev@[t],
            forall|t: int| 0 <= t < tn ==> #[trigger] ls[t] <= last,
            forall|t: int|
                0 <= t < tn ==> (#[trigger] xs@[t] as int) <= (starting_position.0 as int) + (
                UNIT as int) * (ls[t] - first),
            forall|t: int| 0 <= t < tn && (k as int) < m ==> #[trigger] ls[t] <= sv[k as int].1,
        decreases m - k,
    {
        let (tid, start, end) = sorted[k];
        proof {
            assert(stint_ok(tasks@, tn as nat, sv[k as int]));
        }
        let pe = prev[tid];
        if start > pe {
            let gap = start - pe;
            proof {
                assert(ls[tid as int] <= pe);
                assert((gap as int) <= last - first);
                assert((gap as int) * (UNIT as int) <= (UNIT as int) * (last - first))
                    by (nonlinear_arith)
                    requires
                        0 <= (gap as int) <= last - first,
                {}
                assert((tid as int) * ((UNIT + VERTICAL_GAP) as int) < (tn as int) * ((UNIT
                    + VERTICAL_GAP) as int)) by (nonlinear_arith)
                    requires
                        0 <= (tid as int) < (tn as int),
                {}
                assert((xs@[tid as int] as int) + (gap as int) * (UNIT as int) <= (
                starting_position.0 as int) + (UNIT as int) * (start - first))
                    by (nonlinear_arith)
                    requires
                        (xs@[tid as int] as int) <= (starting_position.0 as int) + (UNIT as int)
                            * (ls[tid as int] - first),
                        gap == start - pe,
                        ls[tid as int] <= pe,
                        first <= ls[tid as int],
                        pe < start,
                {}
                assert((start as int) - first <= last - first);
                assert((UNIT as int) * ((start as int) - first) <= (UNIT as int) * (last - first))
                    by (nonlinear_arith)
                    requires
                        (start as int) - first <= last - first,
                        0 <= (start as int) - first,
                {}
            }
            let width = gap * UNIT;
            let y = starting_position.1 + (tid as u64) * (UNIT + VERTICAL_GAP);
            let cx = xs[tid];
            rectangles.push(
                Rectangle::new(
                    thread_color(tid),
                    OPAQUE,
                    (cx, y),
                    (width, UNIT),
                    Some((pe, start)),
                ),
            );
            xs.set(tid, cx + width);
            prev.set(tid, end);
            proof {
                let st = idle_state(sv, first, starting_position, tn as nat, k as int);
                let st2 = idle_state(sv, first, starting_position, tn as nat, k as int + 1);
                assert(st2.rects == st.rects.push(
                    idle_rect(starting_position, tid as int, st.xs[tid as int], pe, start),
                ));
                assert((y as int) == (starting_position.1 as int) + (tid as int) * ((UNIT
                    + VERTICAL_GAP) as int));
                assert(rectangles@.last() == idle_rect(
                    starting_position,
                    tid as int,
                    cx,
                    pe,
                    start,
                ));
                assert(rectangles@ =~= base + st2.rects);
                assert(prev@ =~= st2.prev);
                assert(xs@ =~= st2.xs);
            }
        } else {
            prev.set(tid, end);
            proof {
                let st2 = idle_state(sv, first, starting_position, tn as nat, k as int + 1);
                assert(prev@ =~= st2.prev);
            }
        }
        proof {
            assert(ls[tid as int] <= sv[k as int].1);
            ls = ls.update(tid as int, start);
            assert forall|t: int| 0 <= t < tn && (k as int) + 1 < m implies #[trigger] ls[t]
                <= sv[k as int + 1].1 by {
                let leq = |a: Stint, b: Stint| a.1 <= b.1;
                assert(leq(sv[k as int], sv[k as int + 1]));
            }
        }
        k += 1;
    }
    proof {
        assert(rectangles@ =~= old(rectangles)@ + idle_rects_of(
            tasks@,
            starting_position,
            tn as nat,
        ));
    }
}

} // verus!
