//! Bottom-up dimension pass: width and height of every block.
//!
//! A task block is one `UNIT` high and spans its duration (in coordinate
//! steps) wide.  A sequence stacks its children vertically with a
//! `VERTICAL_GAP` between consecutive pairs, and is as wide as its widest
//! child; a parallel block places its children side by side with no gap,
//! and is as high as its tallest child.  Children carry larger arena
//! indices than their parents, so one reverse scan of the arena computes
//! every block after all of its children.

use vstd::prelude::*;
use crate::trace::{TaskLog, TraceError};
use crate::geometry::{UNIT, VERTICAL_GAP};
use crate::fork_join_graph::{arena_view, kids, wf_arena, Block, BlockShape};

verus! {

/// Width and height of block `i`, in coordinate steps, as exact integers.
pub open spec fn dims_of(tasks: Seq<TaskLog>, g: Seq<BlockShape>, i: int) -> (int, int)
    decreases g.len() - i, 1int, 0int,
    when wf_arena(g) && 0 <= i < g.len()
{
    match g[i] {
        BlockShape::Task(t) => (
            (UNIT as int) * (tasks[t as int].end_time - tasks[t as int].start_time),
            UNIT as int,
        ),
        BlockShape::Sequence(cs) => seq_dims(tasks, g, i, cs, 0),
        BlockShape::Parallel(cs) => par_dims(tasks, g, i, cs, 0),
    }
}

/// Dimensions contributed by children `cs[j..]` of sequence block `i`:
/// widest width, and stacked height including one gap after each child but
/// none after the last (the empty suffix contributes minus one gap).
pub open spec fn seq_dims(tasks: Seq<TaskLog>, g: Seq<BlockShape>, i: int, cs: Seq<usize>, j: int) -> (
    int,
    int,
)
    decreases g.len() - i, 0int, cs.len() - j,
    when wf_arena(g) && 0 <= i < g.len() && 0 <= j && cs == kids(g[i])
{
    if j >= cs.len() {
        (0, -(VERTICAL_GAP as int))
    } else {
        let head = dims_of(tasks, g, cs[j] as int);
        let rest = seq_dims(tasks, g, i, cs, j + 1);
        (
            if head.0 >= rest.0 {
                head.0
            } else {
                rest.0
            },
            head.1 + (VERTICAL_GAP as int) + rest.1,
        )
    }
}

/// Dimensions contributed by children `cs[j..]` of parallel block `i`:
/// widths added side by side, height of the tallest child.
pub open spec fn par_dims(tasks: Seq<TaskLog>, g: Seq<BlockShape>, i: int, cs: Seq<usize>, j: int) -> (
    int,
    int,
)
    decreases g.len() - i, 0int, cs.len() - j,
    when wf_arena(g) && 0 <= i < g.len() && 0 <= j && cs == kids(g[i])
{
    if j >= cs.len() {
        (0, 0)
    } else {
        let head = dims_of(tasks, g, cs[j] as int);
        let rest = par_dims(tasks, g, i, cs, j + 1);
        (
            head.0 + rest.0,
            if head.1 >= rest.1 {
                head.1
            } else {
                rest.1
            },
        )
    }
}

/// Every task block of the arena names a task of the run, recorded with a
/// duration (`end_time >= start_time`).
pub open spec fn tasks_resolved(tasks: Seq<TaskLog>, g: Seq<BlockShape>) -> bool {
    forall|i: int|
        0 <= i < g.len() ==> match #[trigger] g[i] {
            BlockShape::Task(t) => (t as int) < tasks.len() && tasks[t as int].start_time
                <= tasks[t as int].end_time,
            _ => true,
        }
}

/// No sequence block of the arena is empty.
pub open spec fn sequences_nonempty(g: Seq<BlockShape>) -> bool {
    forall|i: int|
        0 <= i < g.len() ==> (#[trigger] g[i] is Sequence ==> kids(g[i]).len() >= 1)
}

/// Both dimensions of block `i` are representable as `u64` coordinates.
pub open spec fn dims_fit(tasks: Seq<TaskLog>, g: Seq<BlockShape>, i: int) -> bool {
    dims_of(tasks, g, i).0 <= u64::MAX && dims_of(tasks, g, i).1 <= u64::MAX
}

/// Dimensions are never negative (an empty sequence, which alone could
/// stack to a negative height, is excluded).
pub proof fn lemma_dims_nonneg(tasks: Seq<TaskLog>, g: Seq<BlockShape>, i: int)
    requires
        wf_arena(g),
        tasks_resolved(tasks, g),
        sequences_nonempty(g),
        0 <= i < g.len(),
    ensures
        dims_of(tasks, g, i).0 >= 0,
        dims_of(tasks, g, i).1 >= 0,
    decreases g.len() - i, 1int, 0int,
{
    match g[i] {
        BlockShape::Task(t) => {},
        BlockShape::Sequence(cs) => {
            lemma_seq_dims_nonneg(tasks, g, i, cs, 0);
        },
        BlockShape::Parallel(cs) => {
            lemma_par_dims_nonneg(tasks, g, i, cs, 0);
        },
    }
}

pub proof fn lemma_seq_dims_nonneg(
    tasks: Seq<TaskLog>,
    g: Seq<BlockShape>,
    i: int,
    cs: Seq<usize>,
    j: int,
)
    requires
        wf_arena(g),
        tasks_resolved(tasks, g),
        sequences_nonempty(g),
        0 <= i < g.len(),
        cs == kids(g[i]),
        0 <= j,
    ensures
        seq_dims(tasks, g, i, cs, j).0 >= 0,
        j < cs.len() ==> seq_dims(tasks, g, i, cs, j).1 >= dims_of(tasks, g, cs[j] as int).1,
        j < cs.len() ==> seq_dims(tasks, g, i, cs, j).1 >= 0,
        seq_dims(tasks, g, i, cs, j).1 >= -(VERTICAL_GAP as int),
    decreases g.len() - i, 0int, cs.len() - j,
{
    if j < cs.len() {
        lemma_dims_nonneg(tasks, g, cs[j] as int);
        lemma_seq_dims_nonneg(tasks, g, i, cs, j + 1);
    }
}

pub proof fn lemma_par_dims_nonneg(
    tasks: Seq<TaskLog>,
    g: Seq<BlockShape>,
    i: int,
    cs: Seq<usize>,
    j: int,
)
    requires
        wf_arena(g),
        tasks_resolved(tasks, g),
        sequences_nonempty(g),
        0 <= i < g.len(),
        cs == kids(g[i]),
        0 <= j,
    ensures
        par_dims(tasks, g, i, cs, j).0 >= 0,
        par_dims(tasks, g, i, cs, j).1 >= 0,
    decreases g.len() - i, 0int, cs.len() - j,
{
    if j < cs.len() {
        lemma_dims_nonneg(tasks, g, cs[j] as int);
        lemma_par_dims_nonneg(tasks, g, i, cs, j + 1);
    }
}

/// Sum of the heights of children `cs[j..]`, without gaps.
pub open spec fn sum_heights(tasks: Seq<TaskLog>, g: Seq<BlockShape>, i: int, cs: Seq<usize>, j: int) -> int
    decreases g.len() - i, 0int, cs.len() - j,
    when wf_arena(g) && 0 <= i < g.len() && 0 <= j && cs == kids(g[i])
{
    if j >= cs.len() {
        0
    } else {
        dims_of(tasks, g, cs[j] as int).1 + sum_heights(tasks, g, i, cs, j + 1)
    }
}

/// Sum of the widths of children `cs[j..]`.
pub open spec fn sum_widths(tasks: Seq<TaskLog>, g: Seq<BlockShape>, i: int, cs: Seq<usize>, j: int) -> int
    decreases g.len() - i, 0int, cs.len() - j,
    when wf_arena(g) && 0 <= i < g.len() && 0 <= j && cs == kids(g[i])
{
    if j >= cs.len() {
        0
    } else {
        dims_of(tasks, g, cs[j] as int).0 + sum_widths(tasks, g, i, cs, j + 1)
    }
}

/// Dimension monotonicity: a sequence is at least as high as the sum of
/// its children's heights — exactly that sum plus one gap per consecutive
/// pair — and a parallel block's width is exactly the sum of its
/// children's widths.
pub proof fn lemma_dimension_monotonicity(tasks: Seq<TaskLog>, g: Seq<BlockShape>, i: int)
    requires
        wf_arena(g),
        tasks_resolved(tasks, g),
        sequences_nonempty(g),
        0 <= i < g.len(),
    ensures
        g[i] is Sequence ==> dims_of(tasks, g, i).1 == sum_heights(tasks, g, i, kids(g[i]), 0)
            + (VERTICAL_GAP as int) * (kids(g[i]).len() - 1),
        g[i] is Sequence ==> dims_of(tasks, g, i).1 >= sum_heights(tasks, g, i, kids(g[i]), 0),
        g[i] is Parallel ==> dims_of(tasks, g, i).0 == sum_widths(tasks, g, i, kids(g[i]), 0),
{
    match g[i] {
        BlockShape::Sequence(cs) => {
            lemma_seq_height_sum(tasks, g, i, cs, 0);
            assert(kids(g[i]).len() >= 1);
        },
        BlockShape::Parallel(cs) => {
            lemma_par_width_sum(tasks, g, i, cs, 0);
        },
        _ => {},
    }
}

pub proof fn lemma_seq_height_sum(
    tasks: Seq<TaskLog>,
    g: Seq<BlockShape>,
    i: int,
    cs: Seq<usize>,
    j: int,
)
    requires
        wf_arena(g),
        tasks_resolved(tasks, g),
        sequences_nonempty(g),
        0 <= i < g.len(),
        cs == kids(g[i]),
        0 <= j <= cs.len(),
    ensures
        seq_dims(tasks, g, i, cs, j).1 == sum_heights(tasks, g, i, cs, j) + (VERTICAL_GAP as int)
            * (cs.len() - j) - (VERTICAL_GAP as int),
    decreases g.len() - i, 0int, cs.len() - j,
{
    if j < cs.len() {
        lemma_seq_height_sum(tasks, g, i, cs, j + 1);
    }
}

pub proof fn lemma_par_width_sum(
    tasks: Seq<TaskLog>,
    g: Seq<BlockShape>,
    i: int,
    cs: Seq<usize>,
    j: int,
)
    requires
        wf_arena(g),
        tasks_resolved(tasks, g),
        sequences_nonempty(g),
        0 <= i < g.len(),
        cs == kids(g[i]),
        0 <= j,
    ensures
        par_dims(tasks, g, i, cs, j).0 == sum_widths(tasks, g, i, cs, j),
    decreases g.len() - i, 0int, cs.len() - j,
{
    if j < cs.len() {
        lemma_par_width_sum(tasks, g, i, cs, j + 1);
    }
}

/// Computes the dimensions of every block, children before parents.
///
/// Succeeds exactly when every block's width and height fit the `u64`
/// coordinate range; the one failure is `TraceError::LayoutOverflow`.
pub fn compute_blocks_dimensions(tasks: &Vec<TaskLog>, graph: &Vec<Block>) -> (res: Result<
    Vec<(u64, u64)>,
    TraceError,
>)
    requires
        wf_arena(arena_view(graph@)),
        tasks_resolved(tasks@, arena_view(graph@)),
        sequences_nonempty(arena_view(graph@)),
    ensures
        res is Ok <==> forall|i: int|
            0 <= i < graph@.len() ==> dims_fit(tasks@, arena_view(graph@), i),
        res is Err ==> res->Err_0 == TraceError::LayoutOverflow,
        res is Ok ==> res->Ok_0@.len() == graph@.len(),
        res is Ok ==> forall|i: int|
            0 <= i < graph@.len() ==> ((#[trigger] res->Ok_0@[i]).0 as int, res->Ok_0@[i].1 as int)
                == dims_of(tasks@, arena_view(graph@), i),
{
    let ghost gv = arena_view(graph@);
    proof {
        crate::fork_join_graph::lemma_arena_view_len(graph@);
    }
    let n = graph.len();
    let mut dims: Vec<(u64, u64)> = Vec::new();
    let mut z: usize = 0;
    while z < n
        invariant
            z <= n,
            dims@.len() == z,
        decreases n - z,
    {
        dims.push((0, 0));
        z += 1;
    }
    let mut i = n;
    while i > 0
        invariant
            i <= n,
            n == graph@.len(),
            gv == arena_view(graph@),
            gv.len() == n,
            wf_arena(gv),
            tasks_resolved(tasks@, gv),
            sequences_nonempty(gv),
            dims@.len() == n,
            forall|q: int|
                i <= q < n ==> ((#[trigger] dims@[q]).0 as int, dims@[q].1 as int) == dims_of(
                    tasks@,
                    gv,
                    q,
                ),
        decreases i,
    {
        i -= 1;
        proof {
            crate::fork_join_graph::lemma_arena_view_index(graph@, i as int);
        }
        match &graph[i] {
            Block::Task(t) => {
                let task = &tasks[*t];
                let dur = task.end_time - task.start_time;
                match dur.checked_mul(UNIT) {
                    Some(w) => {
                        dims.set(i, (w, UNIT));
                    },
                    None => {
                        proof {
                            assert(!dims_fit(tasks@, gv, i as int));
                        }
                        return Err(TraceError::LayoutOverflow);
                    },
                }
            },
            Block::Sequence(cs) => {
                let ghost csv = cs@;
                proof {
                    assert(kids(gv[i as int]) == csv);
                    lemma_seq_dims_nonneg(tasks@, gv, i as int, csv, 0);
                }
                let mut w: u64 = 0;
                let mut h: u64 = 0;
                let mut j: usize = 0;
                while j < cs.len()
                    invariant
                        j <= cs@.len(),
                        csv == cs@,
                        csv == kids(gv[i as int]),
                        n == graph@.len(),
                        gv == arena_view(graph@),
                        gv.len() == n,
                        (i as int) < n,
                        wf_arena(gv),
                        tasks_resolved(tasks@, gv),
                        sequences_nonempty(gv),
                        dims@.len() == n,
                        forall|q: int|
                            i < q < n ==> ((#[trigger] dims@[q]).0 as int, dims@[q].1 as int)
                                == dims_of(tasks@, gv, q),
                        dims_of(tasks@, gv, i as int).0 == if (w as int) >= seq_dims(
                            tasks@,
                            gv,
                            i as int,
                            csv,
                            j as int,
                        ).0 {
                            w as int
                        } else {
                            seq_dims(tasks@, gv, i as int, csv, j as int).0
                        },
                        dims_of(tasks@, gv, i as int).1 == h + (if j == 0 {
                            seq_dims(tasks@, gv, i as int, csv, 0).1
                        } else {
                            (VERTICAL_GAP as int) + seq_dims(tasks@, gv, i as int, csv, j as int).1
                        }),
                    decreases cs@.len() - j,
                {
                    let c = cs[j];
                    proof {
                        assert(i < (csv[j as int] as int) < n);
                        lemma_dims_nonneg(tasks@, gv, c as int);
                        lemma_seq_dims_nonneg(tasks@, gv, i as int, csv, j + 1);
                    }
                    let (cw, ch) = dims[c];
                    if cw > w {
                        w = cw;
                    }
                    let extra: u64 = if j == 0 {
                        0
                    } else {
                        VERTICAL_GAP
                    };
                    let step = match ch.checked_add(extra) {
                        Some(v) => v,
                        None => {
                            proof {
                                assert(dims_of(tasks@, gv, i as int).1 > u64::MAX);
                                assert(!dims_fit(tasks@, gv, i as int));
                            }
                            return Err(TraceError::LayoutOverflow);
                        },
                    };
                    let nh = match h.checked_add(step) {
                        Some(v) => v,
                        None => {
                            proof {
                                assert(dims_of(tasks@, gv, i as int).1 > u64::MAX);
                                assert(!dims_fit(tasks@, gv, i as int));
                            }
                            return Err(TraceError::LayoutOverflow);
                        },
                    };
                    h = nh;
                    j += 1;
                }
                proof {
                    assert(seq_dims(tasks@, gv, i as int, csv, csv.len() as int) == (
                        0int,
                        -(VERTICAL_GAP as int),
                    ));
                    assert(csv.len() >= 1);
                    assert(dims_of(tasks@, gv, i as int).0 == w as int);
                    assert(dims_of(tasks@, gv, i as int).1 == h as int);
                }
                dims.set(i, (w, h));
            },
            Block::Parallel(cs) => {
                let ghost csv = cs@;
                proof {
                    assert(kids(gv[i as int]) == csv);
                    lemma_par_dims_nonneg(tasks@, gv, i as int, csv, 0);
                }
                let mut w: u64 = 0;
                let mut h: u64 = 0;
                let mut j: usize = 0;
                while j < cs.len()
                    invariant
                        j <= cs@.len(),
                        csv == cs@,
                        csv == kids(gv[i as int]),
                        n == graph@.len(),
                        gv == arena_view(graph@),
                        gv.len() == n,
                        (i as int) < n,
                        wf_arena(gv),
                        tasks_resolved(tasks@, gv),
                        sequences_nonempty(gv),
                        dims@.len() == n,
                        forall|q: int|
                            i < q < n ==> ((#[trigger] dims@[q]).0 as int, dims@[q].1 as int)
                                == dims_of(tasks@, gv, q),
                        dims_of(tasks@, gv, i as int).0 == w + par_dims(
                            tasks@,
                            gv,
                            i as int,
                            csv,
                            j as int,
                        ).0,
                        dims_of(tasks@, gv, i as int).1 == if (h as int) >= par_dims(
                            tasks@,
                            gv,
                            i as int,
                            csv,
                            j as int,
                        ).1 {
                            h as int
                        } else {
                            par_dims(tasks@, gv, i as int, csv, j as int).1
                        },
                    decreases cs@.len() - j,
                {
                    let c = cs[j];
                    proof {
                        assert(i < (csv[j as int] as int) < n);
                        lemma_dims_nonneg(tasks@, gv, c as int);
                        lemma_par_dims_nonneg(tasks@, gv, i as int, csv, j + 1);
                    }
                    let (cw, ch) = dims[c];
                    if ch > h {
                        h = ch;
                    }
                    let nw = match w.checked_add(cw) {
                        Some(v) => v,
                        None => {
                            proof {
                                assert(dims_of(tasks@, gv, i as int).0 > u64::MAX);
                                assert(!dims_fit(tasks@, gv, i as int));
                            }
                            return Err(TraceError::LayoutOverflow);
                        },
                    };
                    w = nw;
                    j += 1;
                }
                proof {
                    assert(par_dims(tasks@, gv, i as int, csv, csv.len() as int) == (0int, 0int));
                    assert(dims_of(tasks@, gv, i as int).0 == w as int);
                    assert(dims_of(tasks@, gv, i as int).1 == h as int);
                }
                dims.set(i, (w, h));
            },
        }
    }
    proof {
        assert forall|q: int| 0 <= q < graph@.len() implies dims_fit(
            tasks@,
            arena_view(graph@),
            q,
        ) by {
            assert(((dims@[q]).0 as int, (dims@[q]).1 as int) == dims_of(tasks@, gv, q));
        }
    }
    Ok(dims)
}

} // verus!
