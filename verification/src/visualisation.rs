//! The top-level engine: turns recorded runs into rectangles and edges.
//!
//! Each run is validated, rebuilt into a block tree, measured, positioned
//! at the running vertical offset, rendered, and given its idle-time bars
//! just to the right of its layout; the offset then advances by the run's
//! rendered height, so runs stack downward.  A run either contributes a
//! complete, consistent layout or the whole call fails with its error.

use vstd::prelude::*;
use crate::trace::{validate_run, valid_run, RunLog, TaskLog, TraceError};
use crate::geometry::{Edge, Rectangle, UNIT, VERTICAL_GAP};
use crate::fork_join_graph::{
    arena_view, build_run, create_graph, kids, sorted_ids, task_ids, wf_arena, Block, BlockShape,
};
use crate::dimensions::{
    compute_blocks_dimensions, dims_of, sequences_nonempty, tasks_resolved,
};
use crate::positions::{compute_positions, positions_consistent};
use crate::speeds::{compute_speeds, speeds_of};
use crate::render::{edges_of, generate_visualisation, rects_of};
use crate::idle::{compute_idle_times, first_of, idle_rects_of, last_of};

verus! {

broadcast use vstd::seq_lib::group_to_multiset_ensures;

/// The dimensions of every block, as `u64` coordinate pairs.
pub open spec fn dimvals(tasks: Seq<TaskLog>, g: Seq<BlockShape>) -> Seq<(u64, u64)> {
    Seq::new(g.len(), |i: int| (dims_of(tasks, g, i).0 as u64, dims_of(tasks, g, i).1 as u64))
}

/// The lowest row reached by any block: the largest vertical coordinate.
pub open spec fn max_y_of(pos: Seq<(u64, u64)>) -> u64
    decreases pos.len(),
{
    if pos.len() == 0 {
        0
    } else if pos.len() == 1 {
        pos[0].1
    } else {
        let rest = max_y_of(pos.drop_last());
        if pos.last().1 > rest {
            pos.last().1
        } else {
            rest
        }
    }
}

/// The rightmost edge reached by any block: the largest `x + width`.
pub open spec fn max_xw_of(pos: Seq<(u64, u64)>, dims: Seq<(u64, u64)>) -> u64
    decreases pos.len(),
{
    if pos.len() == 0 {
        0
    } else if pos.len() == 1 {
        (pos[0].0 + dims[0].0) as u64
    } else {
        let rest = max_xw_of(pos.drop_last(), dims.drop_last());
        if (pos.last().0 + dims[pos.len() - 1].0) as u64 > rest {
            (pos.last().0 + dims[pos.len() - 1].0) as u64
        } else {
            rest
        }
    }
}

/// The positions of a run's blocks: the unique assignment that satisfies
/// the layout rules with the root at `(0, y)` (unique in a proper tree,
/// by `lemma_positions_unique`).
pub open spec fn layout_of(tasks: Seq<TaskLog>, g: Seq<BlockShape>, y: u64) -> Seq<(u64, u64)> {
    choose|pos: Seq<(u64, u64)>|
        pos.len() == g.len() && pos[0] == (0u64, y) && #[trigger] positions_consistent(
            tasks,
            g,
            pos,
        )
}

/// A run's rendered height at offset `y`: its lowest row plus one row
/// height, measured from the offset.
#[verifier::opaque]
pub open spec fn rendered_height(run: RunLog, y: u64) -> int {
    let tasks = run.tasks_logs@;
    let g = build_run(tasks)->Ok_0.graph;
    max_y_of(layout_of(tasks, g, y)) + UNIT - y
}

/// Vertical origin of a run's idle rows: centered against the task rows,
/// but never above the run's own offset — a run whose idle rows are taller
/// than its layout keeps them anchored at the offset, since coordinates
/// are unsigned.
pub open spec fn idle_origin_y(y: u64, h: int, tn: int) -> int {
    if h >= tn * (UNIT as int) {
        y + (h - tn * (UNIT as int)) / 2
    } else {
        y as int
    }
}

/// When a run's layout is representable in `u64` coordinates at offset
/// `y`: every block's dimensions fit, the run's band below `y` fits, and
/// the idle rows' origin and extent fit.
#[verifier::opaque]
pub open spec fn fits(run: RunLog, y: u64) -> bool {
    let tasks = run.tasks_logs@;
    let g = build_run(tasks)->Ok_0.graph;
    let dims = dimvals(tasks, g);
    let pos = layout_of(tasks, g, y);
    let h = rendered_height(run, y);
    let tn = run.threads_number as int;
    &&& forall|i: int| 0 <= i < g.len() ==> crate::dimensions::dims_fit(tasks, g, i)
    &&& (y as int) + dims_of(tasks, g, 0).1 + (UNIT as int) <= u64::MAX
    &&& ((max_xw_of(pos, dims) as int) * 102) / 100 + (UNIT as int) * (last_of(tasks) - first_of(
        tasks,
    )) <= u64::MAX
    &&& idle_origin_y(y, h, tn) + tn * ((UNIT + VERTICAL_GAP) as int) <= u64::MAX
}

/// Upper bound on the top edge of any rectangle a run emits at offset
/// `y` with rendered height `h`: the lowest task row, or the lowest idle
/// row, whichever is lower.
pub open spec fn rect_top_cap(run: RunLog, y: u64, h: int) -> int {
    let tn = run.threads_number as int;
    let task_top = y + h - (UNIT as int);
    let idle_top = idle_origin_y(y, h, tn) + (tn - 1) * ((UNIT + VERTICAL_GAP) as int);
    if task_top >= idle_top {
        task_top
    } else {
        idle_top
    }
}

/// When a run renders at offset `y`: it is a valid log, reconstructs to a
/// tree with no empty branch, and its layout fits the coordinate range.
pub open spec fn renderable(run: RunLog, y: u64) -> bool {
    &&& valid_run(run)
    &&& build_run(run.tasks_logs@) is Ok
    &&& sequences_nonempty(build_run(run.tasks_logs@)->Ok_0.graph)
    &&& fits(run, y)
}

/// What one successfully rendered run contributes, at vertical offset
/// `y`: its rectangle segment `rseg`, its edge segment `eseg`, and its
/// rendered height `h`.  The block positions are determined by the layout
/// rules ([`positions_consistent`]); everything else is a function of
/// them: the run's rectangles, then its idle bars at an origin just right
/// of the layout (`x` scaled by 102/100) and vertically centered against
/// the task rows.
#[verifier::opaque]
pub open spec fn run_rendered(
    run: RunLog,
    y: u64,
    rseg: Seq<Rectangle>,
    eseg: Seq<Edge>,
    h: u64,
) -> bool {
    let tasks = run.tasks_logs@;
    &&& valid_run(run)
    &&& build_run(tasks) is Ok
    &&& {
        let g = build_run(tasks)->Ok_0.graph;
        let dims = dimvals(tasks, g);
        exists|pos: Seq<(u64, u64)>|
            {
                &&& pos.len() == g.len()
                &&& pos[0] == (0u64, y)
                &&& #[trigger] positions_consistent(tasks, g, pos)
                &&& (h as int) == max_y_of(pos) + UNIT - y
                &&& {
                    let x0 = (((max_xw_of(pos, dims) as int) * 102) / 100) as u64;
                    let y0 = idle_origin_y(y, h as int, run.threads_number as int) as u64;
                    rseg == rects_of(tasks, g, pos, dims, speeds_of(tasks), 0) + idle_rects_of(
                        tasks,
                        (x0, y0),
                        run.threads_number as nat,
                    )
                }
                &&& eseg == edges_of(tasks, g, pos, dimvals(tasks, g), 0)
                &&& forall|q: int| 0 <= q < rseg.len() ==> (#[trigger] rseg[q]).y >= y
                &&& forall|q: int|
                    0 <= q < rseg.len() ==> ((#[trigger] rseg[q]).y as int) <= rect_top_cap(
                        run,
                        y,
                        h as int,
                    )
            }
    }
}

/// One run's contribution appended to existing output.
pub open spec fn rendered_append(
    run: RunLog,
    y: u64,
    old_r: Seq<Rectangle>,
    new_r: Seq<Rectangle>,
    old_e: Seq<Edge>,
    new_e: Seq<Edge>,
    h: u64,
) -> bool {
    exists|rseg: Seq<Rectangle>, eseg: Seq<Edge>|
        new_r == old_r + rseg && new_e == old_e + eseg && #[trigger] run_rendered(
            run,
            y,
            rseg,
            eseg,
            h,
        )
}

/// A whole trace decomposes into stacked run segments.
pub open spec fn stacked_output(runs: Seq<RunLog>, rects: Seq<Rectangle>, edges: Seq<Edge>) -> bool {
    exists|rb: Seq<int>, eb: Seq<int>, ys: Seq<u64>, hs: Seq<u64>| #[trigger] stacked(
        runs,
        rects,
        edges,
        rb,
        eb,
        ys,
        hs,
    )
}

/// A task block's identifier occurs among the arena's task identifiers.
pub proof fn lemma_task_block_member(g: Seq<BlockShape>, i: int)
    requires
        0 <= i < g.len(),
        g[i] is Task,
    ensures
        task_ids(g).contains(g[i]->Task_0),
    decreases g.len(),
{
    if i == g.len() - 1 {
        assert(g.last() == g[i]);
        assert(task_ids(g).last() == g[i]->Task_0);
    } else {
        lemma_task_block_member(g.drop_last(), i);
        let t = g[i]->Task_0;
        let j = choose|j: int| 0 <= j < task_ids(g.drop_last()).len() && task_ids(g.drop_last())[j] == t;
        match g.last() {
            BlockShape::Task(t2) => {
                assert(task_ids(g)[j] == t);
            },
            _ => {
                assert(task_ids(g)[j] == t);
            },
        }
    }
}

/// On a well-formed reconstruction, every task block resolves to a task
/// of the run.
pub proof fn lemma_graph_resolved(tasks: Seq<TaskLog>, g: Seq<BlockShape>)
    requires
        tasks.len() <= usize::MAX,
        task_ids(g) == sorted_ids(tasks),
        forall|j: int|
            0 <= j < tasks.len() ==> (#[trigger] tasks[j]).start_time <= tasks[j].end_time,
    ensures
        tasks_resolved(tasks, g),
{
    crate::fork_join_graph::lemma_task_coverage(tasks);
    assert forall|i: int| 0 <= i < g.len() implies match #[trigger] g[i] {
        BlockShape::Task(t) => (t as int) < tasks.len() && tasks[t as int].start_time
            <= tasks[t as int].end_time,
        _ => true,
    } by {
        if g[i] is Task {
            lemma_task_block_member(g, i);
            let t = g[i]->Task_0;
            assert(sorted_ids(tasks).contains(t));
            assert(sorted_ids(tasks).to_multiset().count(t) > 0);
            assert((t as int) < tasks.len());
        }
    }
}

/// The lowest row is no higher than any block's row.
pub proof fn lemma_max_y_ge(pos: Seq<(u64, u64)>, i: int)
    requires
        0 <= i < pos.len(),
    ensures
        max_y_of(pos) >= pos[i].1,
    decreases pos.len(),
{
    if pos.len() > 1 && i < pos.len() - 1 {
        lemma_max_y_ge(pos.drop_last(), i);
    }
}

/// Rectangles of a laid-out subtree never rise above the rows of its
/// blocks: every emitted rectangle's top is at or below `lo`.
pub proof fn lemma_rects_y_lo(
    tasks: Seq<TaskLog>,
    g: Seq<BlockShape>,
    pos: Seq<(u64, u64)>,
    dims: Seq<(u64, u64)>,
    sp: Seq<crate::speeds::SpeedEntry>,
    i: int,
    lo: u64,
)
    requires
        wf_arena(g),
        0 <= i < g.len(),
        forall|b: int| 0 <= b < g.len() ==> (#[trigger] pos[b]).1 >= lo,
    ensures
        forall|q: int|
            0 <= q < rects_of(tasks, g, pos, dims, sp, i).len() ==> (#[trigger] rects_of(
                tasks,
                g,
                pos,
                dims,
                sp,
                i,
            )[q]).y >= lo,
    decreases g.len() - i, 1int, 0int,
{
    match g[i] {
        BlockShape::Task(_) => {},
        BlockShape::Sequence(cs) => {
            lemma_cat_rects_y_lo(tasks, g, pos, dims, sp, i, cs, 0, lo);
        },
        BlockShape::Parallel(cs) => {
            lemma_cat_rects_y_lo(tasks, g, pos, dims, sp, i, cs, 0, lo);
        },
    }
}

pub proof fn lemma_cat_rects_y_lo(
    tasks: Seq<TaskLog>,
    g: Seq<BlockShape>,
    pos: Seq<(u64, u64)>,
    dims: Seq<(u64, u64)>,
    sp: Seq<crate::speeds::SpeedEntry>,
    i: int,
    cs: Seq<usize>,
    j: int,
    lo: u64,
)
    requires
        wf_arena(g),
        0 <= i < g.len(),
        cs == kids(g[i]),
        0 <= j,
        forall|b: int| 0 <= b < g.len() ==> (#[trigger] pos[b]).1 >= lo,
    ensures
        forall|q: int|
            0 <= q < crate::render::cat_rects(tasks, g, pos, dims, sp, i, cs, j).len() ==> (
            #[trigger] crate::render::cat_rects(tasks, g, pos, dims, sp, i, cs, j)[q]).y >= lo,
    decreases g.len() - i, 0int, cs.len() - j,
{
    if j < cs.len() {
        lemma_rects_y_lo(tasks, g, pos, dims, sp, cs[j] as int, lo);
        lemma_cat_rects_y_lo(tasks, g, pos, dims, sp, i, cs, j + 1, lo);
    }
}

/// Rectangles of a laid-out subtree never sink below its lowest row:
/// every emitted rectangle's top is at or above `hi`.
pub proof fn lemma_rects_y_hi(
    tasks: Seq<TaskLog>,
    g: Seq<BlockShape>,
    pos: Seq<(u64, u64)>,
    dims: Seq<(u64, u64)>,
    sp: Seq<crate::speeds::SpeedEntry>,
    i: int,
    hi: u64,
)
    requires
        wf_arena(g),
        0 <= i < g.len(),
        forall|b: int| 0 <= b < g.len() ==> (#[trigger] pos[b]).1 <= hi,
    ensures
        forall|q: int|
            0 <= q < rects_of(tasks, g, pos, dims, sp, i).len() ==> (#[trigger] rects_of(
                tasks,
                g,
                pos,
                dims,
                sp,
                i,
            )[q]).y <= hi,
    decreases g.len() - i, 1int, 0int,
{
    match g[i] {
        BlockShape::Task(_) => {},
        BlockShape::Sequence(cs) => {
            lemma_cat_rects_y_hi(tasks, g, pos, dims, sp, i, cs, 0, hi);
        },
        BlockShape::Parallel(cs) => {
            lemma_cat_rects_y_hi(tasks, g, pos, dims, sp, i, cs, 0, hi);
        },
    }
}

pub proof fn lemma_cat_rects_y_hi(
    tasks: Seq<TaskLog>,
    g: Seq<BlockShape>,
    pos: Seq<(u64, u64)>,
    dims: Seq<(u64, u64)>,
    sp: Seq<crate::speeds::SpeedEntry>,
    i: int,
    cs: Seq<usize>,
    j: int,
    hi: u64,
)
    requires
        wf_arena(g),
        0 <= i < g.len(),
        cs == kids(g[i]),
        0 <= j,
        forall|b: int| 0 <= b < g.len() ==> (#[trigger] pos[b]).1 <= hi,
    ensures
        forall|q: int|
            0 <= q < crate::render::cat_rects(tasks, g, pos, dims, sp, i, cs, j).len() ==> (
            #[trigger] crate::render::cat_rects(tasks, g, pos, dims, sp, i, cs, j)[q]).y <= hi,
    decreases g.len() - i, 0int, cs.len() - j,
{
    if j < cs.len() {
        lemma_rects_y_hi(tasks, g, pos, dims, sp, cs[j] as int, hi);
        lemma_cat_rects_y_hi(tasks, g, pos, dims, sp, i, cs, j + 1, hi);
    }
}

/// Idle bars never sink below the lowest idle row.
pub proof fn lemma_idle_y_hi(
    sorted: Seq<crate::idle::Stint>,
    first: u64,
    origin: (u64, u64),
    threads: nat,
    k: int,
)
    requires
        threads >= 1,
        forall|q: int| 0 <= q < sorted.len() ==> ((#[trigger] sorted[q]).0 as int) < threads,
        (origin.1 as int) + (threads as int) * ((UNIT + VERTICAL_GAP) as int) <= u64::MAX,
        k <= sorted.len(),
    ensures
        forall|q: int|
            0 <= q < crate::idle::idle_state(sorted, first, origin, threads, k).rects.len() ==> (
            #[trigger] crate::idle::idle_state(sorted, first, origin, threads, k).rects[q].y as int)
                <= (origin.1 as int) + ((threads as int) - 1) * ((UNIT + VERTICAL_GAP) as int),
    decreases k,
{
    if k > 0 {
        lemma_idle_y_hi(sorted, first, origin, threads, k - 1);
        let tid = sorted[k - 1].0;
        assert((tid as int) * ((UNIT + VERTICAL_GAP) as int) <= ((threads as int) - 1) * ((UNIT
            + VERTICAL_GAP) as int)) by (nonlinear_arith)
            requires
                0 <= (tid as int) <= (threads as int) - 1,
                0 < ((UNIT + VERTICAL_GAP) as int),
        {}
    }
}

/// Idle bars never rise above the idle rows' origin.
pub proof fn lemma_idle_y_lo(
    sorted: Seq<crate::idle::Stint>,
    first: u64,
    origin: (u64, u64),
    threads: nat,
    k: int,
)
    requires
        forall|q: int| 0 <= q < sorted.len() ==> ((#[trigger] sorted[q]).0 as int) < threads,
        (origin.1 as int) + (threads as int) * ((UNIT + VERTICAL_GAP) as int) <= u64::MAX,
        k <= sorted.len(),
    ensures
        forall|q: int|
            0 <= q < crate::idle::idle_state(sorted, first, origin, threads, k).rects.len() ==> (
            #[trigger] crate::idle::idle_state(sorted, first, origin, threads, k).rects[q]).y
                >= origin.1,
    decreases k,
{
    if k > 0 {
        lemma_idle_y_lo(sorted, first, origin, threads, k - 1);
        let tid = sorted[k - 1].0;
        assert((tid as int) * ((UNIT + VERTICAL_GAP) as int) <= (threads as int) * ((UNIT
            + VERTICAL_GAP) as int)) by (nonlinear_arith)
            requires
                0 <= (tid as int) < (threads as int),
                0 < ((UNIT + VERTICAL_GAP) as int),
        {}
    }
}

/// Finds the lowest row of the laid-out blocks.
fn scan_max_y(pos: &Vec<(u64, u64)>) -> (my: u64)
    requires
        pos@.len() >= 1,
    ensures
        my == max_y_of(pos@),
{
    let mut my = pos[0].1;
    let mut i: usize = 1;
    proof {
        assert(pos@.subrange(0, 1).len() == 1);
        assert(pos@.subrange(0, 1)[0] == pos@[0]);
    }
    while i < pos.len()
        invariant
            1 <= i <= pos@.len(),
            my == max_y_of(pos@.subrange(0, i as int)),
        decreases pos@.len() - i,
    {
        proof {
            let pre = pos@.subrange(0, i as int);
            let post = pos@.subrange(0, i + 1);
            assert(post.drop_last() =~= pre);
            assert(post.last() == pos@[i as int]);
            assert(post.len() > 1);
        }
        if pos[i].1 > my {
            my = pos[i].1;
        }
        i += 1;
    }
    proof {
        assert(pos@.subrange(0, pos@.len() as int) =~= pos@);
    }
    my
}

/// Finds the rightmost edge of the laid-out blocks.
fn scan_max_xw(pos: &Vec<(u64, u64)>, dims: &Vec<(u64, u64)>) -> (mx: u64)
    requires
        pos@.len() >= 1,
        dims@.len() == pos@.len(),
        forall|b: int|
            0 <= b < pos@.len() ==> ((#[trigger] pos@[b]).0 as int) + (dims@[b].0 as int)
                <= u64::MAX,
    ensures
        mx == max_xw_of(pos@, dims@),
{
    let mut mx = pos[0].0 + dims[0].0;
    let mut i: usize = 1;
    proof {
        assert(pos@.subrange(0, 1).len() == 1);
        assert(pos@.subrange(0, 1)[0] == pos@[0]);
        assert(dims@.subrange(0, 1)[0] == dims@[0]);
    }
    while i < pos.len()
        invariant
            1 <= i <= pos@.len(),
            dims@.len() == pos@.len(),
            forall|b: int|
                0 <= b < pos@.len() ==> ((#[trigger] pos@[b]).0 as int) + (dims@[b].0 as int)
                    <= u64::MAX,
            mx == max_xw_of(pos@.subrange(0, i as int), dims@.subrange(0, i as int)),
        decreases pos@.len() - i,
    {
        proof {
            let pre = pos@.subrange(0, i as int);
            let post = pos@.subrange(0, i + 1);
            assert(post.drop_last() =~= pre);
            assert(dims@.subrange(0, i + 1).drop_last() =~= dims@.subrange(0, i as int));
            assert(post.last() == pos@[i as int]);
            assert(dims@.subrange(0, i + 1)[i as int] == dims@[i as int]);
            assert(post.len() > 1);
            assert(forall|b: int|
                0 <= b < i + 1 ==> dims@.subrange(0, i + 1)[b] == dims@[b]);
        }
        let v = pos[i].0 + dims[i].0;
        if v > mx {
            mx = v;
        }
        i += 1;
    }
    proof {
        assert(pos@.subrange(0, pos@.len() as int) =~= pos@);
        assert(dims@.subrange(0, dims@.len() as int) =~= dims@);
    }
    mx
}

/// Checks that reconstruction left no empty sequence block: recorded
/// joins inconsistent with the recorded forks leave one behind.
fn check_branches(graph: &Vec<Block>) -> (res: Result<(), TraceError>)
    ensures
        res is Ok <==> sequences_nonempty(arena_view(graph@)),
        res is Err ==> res->Err_0 == TraceError::EmptyBranch,
{
    proof {
        crate::fork_join_graph::lemma_arena_view_len(graph@);
    }
    let n = graph.len();
    let mut i: usize = 0;
    while i < n
        invariant
            i <= n,
            n == graph@.len(),
            arena_view(graph@).len() == n,
            forall|q: int|
                0 <= q < i ==> (#[trigger] arena_view(graph@)[q] is Sequence ==> kids(
                    arena_view(graph@)[q],
                ).len() >= 1),
        decreases n - i,
    {
        proof {
            crate::fork_join_graph::lemma_arena_view_index(graph@, i as int);
        }
        match &graph[i] {
            Block::Sequence(s) => {
                if s.len() == 0 {
                    proof {
                        assert(kids(arena_view(graph@)[i as int]).len() == 0);
                    }
                    return Err(TraceError::EmptyBranch);
                }
            },
            _ => {},
        }
        i += 1;
    }
    Ok(())
}


/// A consistent assignment with the root at `(0, y)` is the layout.
pub proof fn lemma_layout_of_is(
    tasks: Seq<TaskLog>,
    g: Seq<BlockShape>,
    pos: Seq<(u64, u64)>,
    y: u64,
)
    requires
        crate::fork_join_graph::tree_arena(g),
        g.len() <= usize::MAX,
        pos.len() == g.len(),
        pos[0] == (0u64, y),
        positions_consistent(tasks, g, pos),
    ensures
        layout_of(tasks, g, y) == pos,
{
    assert(exists|p: Seq<(u64, u64)>|
        p.len() == g.len() && p[0] == (0u64, y) && #[trigger] positions_consistent(tasks, g, p));
    let lp = layout_of(tasks, g, y);
    crate::positions::lemma_positions_unique(tasks, g, lp, pos);
}

/// Lays out and renders one run at vertical offset `y`, appending its
/// rectangles and edges, and returns its rendered height.
///
/// Succeeds exactly on [`renderable`] runs.  All checks run before
/// anything is appended: on an error the output collections are untouched
/// — there is no partial output.  The one coordinate-range failure is
/// `LayoutOverflow`: a dimension or coordinate outside `u64`.  Idle rows
/// taller than the run's layout are kept: their origin is clamped to the
/// run's offset instead of rising above it.
#[verifier::rlimit(80)]
pub fn visualise_run(
    log: &RunLog,
    y: u64,
    rectangles: &mut Vec<Rectangle>,
    edges: &mut Vec<Edge>,
) -> (res: Result<u64, TraceError>)
    ensures
        res matches Ok(hv) ==> rendered_append(
            *log,
            y,
            old(rectangles)@,
            final(rectangles)@,
            old(edges)@,
            final(edges)@,
            hv,
        ),
        res is Ok <==> renderable(*log, y),
        res is Ok ==> (res->Ok_0 as int) == rendered_height(*log, y),
        res is Ok ==> res->Ok_0 >= UNIT && (y as int) + (res->Ok_0 as int) <= u64::MAX,
        res is Err ==> final(rectangles)@ == old(rectangles)@ && final(edges)@ == old(edges)@,
        valid_run(*log) && build_run(log.tasks_logs@) is Err ==> res == Err::<u64, TraceError>(
            build_run(log.tasks_logs@)->Err_0,
        ),
        res is Err && valid_run(*log) && build_run(log.tasks_logs@) is Ok && sequences_nonempty(
            build_run(log.tasks_logs@)->Ok_0.graph,
        ) ==> res->Err_0 == TraceError::LayoutOverflow,
{
    match validate_run(log) {
        Err(e) => {
            return Err(e);
        },
        Ok(()) => {},
    }
    let tasks = &log.tasks_logs;
    let graph = match create_graph(tasks) {
        Err(e) => {
            return Err(e);
        },
        Ok(g) => g,
    };
    let ghost gv = arena_view(graph@);
    proof {
        crate::fork_join_graph::lemma_arena_view_len(graph@);
        lemma_graph_resolved(tasks@, gv);
    }
    match check_branches(&graph) {
        Err(e) => {
            return Err(e);
        },
        Ok(()) => {},
    }
    let dims = match compute_blocks_dimensions(tasks, &graph) {
        Err(e) => {
            proof {
                reveal(fits);
                assert(!fits(*log, y));
            }
            return Err(e);
        },
        Ok(d) => d,
    };
    proof {
        crate::dimensions::lemma_dims_nonneg(tasks@, gv, 0);
        assert(dims@ =~= dimvals(tasks@, gv)) by {
            assert forall|i: int| 0 <= i < gv.len() implies dims@[i] == dimvals(tasks@, gv)[i] by {
                crate::dimensions::lemma_dims_nonneg(tasks@, gv, i);
            }
        }
    }
    let h0 = dims[0].1;
    if y > u64::MAX - UNIT || h0 > u64::MAX - UNIT - y {
        proof {
            reveal(fits);
            assert((h0 as int) == dims_of(tasks@, gv, 0).1);
            assert(!fits(*log, y));
        }
        return Err(TraceError::LayoutOverflow);
    }
    let pos = compute_positions(tasks, &graph, &dims, (0, y));
    proof {
        lemma_layout_of_is(tasks@, gv, pos@, y);
    }
    proof {
        assert forall|b: int| 0 <= b < pos@.len() implies ((#[trigger] pos@[b]).0 as int) + (
        dims@[b].0 as int) <= u64::MAX by {
            crate::dimensions::lemma_dims_nonneg(tasks@, gv, b);
        }
    }
    let maxy = scan_max_y(&pos);
    let maxxw = scan_max_xw(&pos, &dims);
    proof {
        lemma_max_y_ge(pos@, 0);
        assert(maxy >= y);
        assert((maxy as int) <= (y as int) + dims_of(tasks@, gv, 0).1) by {
            lemma_max_y_is_entry(pos@);
            let i = choose|i: int| 0 <= i < pos@.len() && max_y_of(pos@) == pos@[i].1;
            crate::dimensions::lemma_dims_nonneg(tasks@, gv, i);
        }
    }
    let h = maxy + UNIT - y;
    let tn = log.threads_number;
    let (first, last) = crate::idle::find_first_last(tasks);
    proof {
        crate::idle::lemma_first_last(tasks@, 0);
        crate::idle::lemma_last_of_bound(tasks@, crate::trace::MAX_TIME);
    }
    let gapmax = last - first;
    let x0_128: u128 = (maxxw as u128) * 102 / 100;
    if x0_128 > (u64::MAX as u128) - (gapmax as u128) * (UNIT as u128) {
        proof {
            reveal(fits);
            reveal(rendered_height);
            assert((x0_128 as int) == ((max_xw_of(pos@, dims@) as int) * 102) / 100);
            assert(!fits(*log, y));
        }
        return Err(TraceError::LayoutOverflow);
    }
    let x0 = x0_128 as u64;
    let tnu: u64 = (tn as u64) * UNIT;
    let y0 = if h >= tnu {
        y + (h - tnu) / 2
    } else {
        y
    };
    proof {
        reveal(rendered_height);
        assert((h as int) == rendered_height(*log, y));
        assert((y0 as int) == idle_origin_y(y, h as int, tn as int));
    }
    let tngap: u64 = (tn as u64) * (UNIT + VERTICAL_GAP);
    if y0 > u64::MAX - tngap {
        proof {
            reveal(fits);
            reveal(rendered_height);
            assert(!fits(*log, y));
        }
        return Err(TraceError::LayoutOverflow);
    }
    proof {
        reveal(fits);
        reveal(rendered_height);
        assert(fits(*log, y));
        assert(renderable(*log, y));
    }
    let speeds = compute_speeds(tasks);
    let ghost rects0 = rectangles@;
    let ghost edges0 = edges@;
    let _pts = generate_visualisation(tasks, &graph, &dims, &pos, &speeds, 0, rectangles, edges);
    proof {
        lemma_rects_y_lo(tasks@, gv, pos@, dims@, speeds@, 0, y);
    }
    let ghost rects1 = rectangles@;
    compute_idle_times(tasks, (x0, y0), tn, rectangles);
    proof {
        crate::idle::lemma_sorted_timeline_entries(tasks@, tn as nat);
        crate::idle::lemma_tl_order_total(crate::idle::timeline_of(tasks@, tn as nat));
        lemma_idle_y_lo(
            crate::idle::sorted_timeline(crate::idle::timeline_of(tasks@, tn as nat)),
            first_of(tasks@),
            (x0, y0),
            tn as nat,
            crate::idle::timeline_of(tasks@, tn as nat).len() as int,
        );
        let rseg = rectangles@.skip(rects0.len() as int);
        let eseg = edges@.skip(edges0.len() as int);
        assert(rectangles@ =~= rects0 + rseg);
        assert(edges@ =~= edges0 + eseg);
        assert(rseg =~= rects_of(tasks@, gv, pos@, dims@, speeds@, 0) + idle_rects_of(
            tasks@,
            (x0, y0),
            tn as nat,
        ));
        assert(eseg =~= edges_of(tasks@, gv, pos@, dims@, 0));
        assert forall|b: int| 0 <= b < pos@.len() implies (#[trigger] pos@[b]).1 <= maxy by {
            lemma_max_y_ge(pos@, b);
        }
        lemma_rects_y_hi(tasks@, gv, pos@, dims@, speeds@, 0, maxy);
        assert((tasks@[0].thread_id as int) < tn as int);
        lemma_idle_y_hi(
            crate::idle::sorted_timeline(crate::idle::timeline_of(tasks@, tn as nat)),
            first_of(tasks@),
            (x0, y0),
            tn as nat,
            crate::idle::timeline_of(tasks@, tn as nat).len() as int,
        );
        assert forall|q: int| 0 <= q < rseg.len() implies (#[trigger] rseg[q]).y >= y && (
        rseg[q].y as int) <= rect_top_cap(*log, y, h as int) by {
            let a = rects_of(tasks@, gv, pos@, dims@, speeds@, 0);
            let b = idle_rects_of(tasks@, (x0, y0), tn as nat);
            if q < a.len() {
                assert(rseg[q] == a[q]);
                assert(rseg[q].y <= maxy);
            } else {
                assert(rseg[q] == b[q - a.len()]);
                assert(b[q - a.len()].y >= y0);
                assert((b[q - a.len()].y as int) <= (y0 as int) + ((tn as int) - 1) * ((UNIT
                    + VERTICAL_GAP) as int));
            }
        }
        assert((x0 as int) == ((max_xw_of(pos@, dims@) as int) * 102) / 100);
        assert((y0 as int) == idle_origin_y(y, h as int, tn as int));
        reveal(run_rendered);
        assert(run_rendered(*log, y, rseg, eseg, h));
        assert(rectangles@ == old(rectangles)@ + rseg);
        assert(edges@ == old(edges)@ + eseg);
        assert(rendered_append(
            *log,
            y,
            old(rectangles)@,
            rectangles@,
            old(edges)@,
            edges@,
            h,
        ));
    }
    Ok(h)
}

/// The lowest row is the row of some block.
pub proof fn lemma_max_y_is_entry(pos: Seq<(u64, u64)>)
    requires
        pos.len() >= 1,
    ensures
        exists|i: int| 0 <= i < pos.len() && max_y_of(pos) == (#[trigger] pos[i]).1,
    decreases pos.len(),
{
    if pos.len() == 1 {
        assert(max_y_of(pos) == pos[0].1);
    } else {
        lemma_max_y_is_entry(pos.drop_last());
        if pos.last().1 > max_y_of(pos.drop_last()) {
            assert(max_y_of(pos) == pos[pos.len() - 1].1);
        } else {
            let i = choose|i: int|
                0 <= i < pos.drop_last().len() && max_y_of(pos.drop_last()) == (
                #[trigger] pos.drop_last()[i]).1;
            assert(max_y_of(pos) == pos[i].1);
        }
    }
}

/// How a rendered trace decomposes: one rectangle and edge segment per
/// run, each rendered at a vertical offset that starts at zero and
/// advances by the previous run's height — runs stack downward.
pub open spec fn stacked_at(
    runs: Seq<RunLog>,
    rects: Seq<Rectangle>,
    edges: Seq<Edge>,
    rb: Seq<int>,
    eb: Seq<int>,
    ys: Seq<u64>,
    hs: Seq<u64>,
    k: int,
) -> bool {
    &&& 0 <= rb[k] <= rb[k + 1] <= rects.len()
    &&& 0 <= eb[k] <= eb[k + 1] <= edges.len()
    &&& (ys[k + 1] as int) == (ys[k] as int) + (hs[k] as int)
    &&& hs[k] >= UNIT
    &&& run_rendered(
        runs[k],
        ys[k],
        rects.subrange(rb[k], rb[k + 1]),
        edges.subrange(eb[k], eb[k + 1]),
        hs[k],
    )
}

pub open spec fn stacked(
    runs: Seq<RunLog>,
    rects: Seq<Rectangle>,
    edges: Seq<Edge>,
    rb: Seq<int>,
    eb: Seq<int>,
    ys: Seq<u64>,
    hs: Seq<u64>,
) -> bool {
    &&& rb.len() == runs.len() + 1
    &&& eb.len() == runs.len() + 1
    &&& ys.len() == runs.len() + 1
    &&& hs.len() == runs.len()
    &&& rb[0] == 0
    &&& eb[0] == 0
    &&& ys[0] == 0
    &&& rb[runs.len() as int] == rects.len()
    &&& eb[runs.len() as int] == edges.len()
    &&& forall|k: int|
        0 <= k < runs.len() ==> #[trigger] stacked_at(runs, rects, edges, rb, eb, ys, hs, k)
}

/// The vertical offset at which run `k` of a trace is rendered: zero for
/// the first run, then each run's rendered height added in turn.
pub open spec fn offset_after(runs: Seq<RunLog>, k: int) -> int
    decreases k,
{
    if k <= 0 {
        0
    } else {
        offset_after(runs, k - 1) + rendered_height(
            runs[k - 1],
            offset_after(runs, k - 1) as u64,
        )
    }
}

/// When a whole trace renders: every run is renderable at its offset.
pub open spec fn trace_renderable(runs: Seq<RunLog>) -> bool {
    forall|k: int|
        0 <= k < runs.len() ==> renderable(#[trigger] runs[k], offset_after(runs, k) as u64)
}

/// Converts recorded runs into rectangles and edges, runs stacked
/// vertically in order.  Succeeds exactly when every run is renderable at
/// its offset; otherwise the call fails with the first failing run's
/// error and no output.
#[verifier::rlimit(100)]
pub fn visualisation(traces: &Vec<RunLog>) -> (res: Result<
    (Vec<Rectangle>, Vec<Edge>),
    TraceError,
>)
    ensures
        res is Ok <==> trace_renderable(traces@),
        res matches Ok(out) ==> stacked_output(traces@, out.0@, out.1@),
        res is Ok ==> forall|k: int| 0 <= k < traces@.len() ==> valid_run(#[trigger] traces@[k])
            && build_run(traces@[k].tasks_logs@) is Ok,
        traces@.len() == 0 ==> (res matches Ok(out) && out.0@ == Seq::<Rectangle>::empty()
            && out.1@ == Seq::<Edge>::empty()),
{
    let mut rectangles: Vec<Rectangle> = Vec::new();
    let mut edges: Vec<Edge> = Vec::new();
    let mut y: u64 = 0;
    let n = traces.len();
    let ghost mut rb: Seq<int> = seq![0int];
    let ghost mut eb: Seq<int> = seq![0int];
    let ghost mut ys: Seq<u64> = seq![0u64];
    let ghost mut hs: Seq<u64> = Seq::empty();
    let mut k: usize = 0;
    while k < n
        invariant
            k <= n,
            n == traces@.len(),
            rb.len() == k + 1,
            eb.len() == k + 1,
            ys.len() == k + 1,
            hs.len() == k,
            rb[0] == 0,
            eb[0] == 0,
            ys[0] == 0,
            rb[k as int] == rectangles@.len(),
            eb[k as int] == edges@.len(),
            ys[k as int] == y,
            (y as int) == offset_after(traces@, k as int),
            forall|q: int|
                0 <= q < k ==> renderable(#[trigger] traces@[q], offset_after(traces@, q) as u64),
            forall|q: int|
                0 <= q < k ==> #[trigger] stacked_at(
                    traces@,
                    rectangles@,
                    edges@,
                    rb,
                    eb,
                    ys,
                    hs,
                    q,
                ),
            forall|q: int|
                0 <= q < k ==> valid_run(#[trigger] traces@[q]) && build_run(
                    traces@[q].tasks_logs@,
                ) is Ok,
        decreases n - k,
    {
        let ghost old_rects = rectangles@;
        let ghost old_edges = edges@;
        match visualise_run(&traces[k], y, &mut rectangles, &mut edges) {
            Err(e) => {
                proof {
                    assert(!renderable(traces@[k as int], offset_after(traces@, k as int) as u64));
                    assert(!trace_renderable(traces@));
                }
                return Err(e);
            },
            Ok(h) => {
                proof {
                    assert(renderable(traces@[k as int], y));
                    assert((h as int) == rendered_height(traces@[k as int], y));
                    assert(offset_after(traces@, k as int + 1) == (y as int) + (h as int));
                    assert(rendered_append(
                        traces@[k as int],
                        y,
                        old_rects,
                        rectangles@,
                        old_edges,
                        edges@,
                        h,
                    ));
                    let (rseg, eseg) = choose|rseg: Seq<Rectangle>, eseg: Seq<Edge>|
                        rectangles@ == old_rects + rseg && edges@ == old_edges + eseg
                            && #[trigger] run_rendered(traces@[k as int], y, rseg, eseg, h);
                    let old_rb = rb;
                    let old_eb = eb;
                    let old_ys = ys;
                    let old_hs = hs;
                    rb = rb.push(rectangles@.len() as int);
                    eb = eb.push(edges@.len() as int);
                    ys = ys.push((y + h) as u64);
                    hs = hs.push(h);
                    assert forall|q: int| 0 <= q < k + 1 implies #[trigger] stacked_at(
                        traces@,
                        rectangles@,
                        edges@,
                        rb,
                        eb,
                        ys,
                        hs,
                        q,
                    ) by {
                        if q < k {
                            assert(stacked_at(
                                traces@,
                                old_rects,
                                old_edges,
                                old_rb,
                                old_eb,
                                old_ys,
                                old_hs,
                                q,
                            ));
                            assert(rb[q] == old_rb[q] && rb[q + 1] == old_rb[q + 1]);
                            assert(eb[q] == old_eb[q] && eb[q + 1] == old_eb[q + 1]);
                            assert(ys[q] == old_ys[q] && ys[q + 1] == old_ys[q + 1]);
                            assert(hs[q] == old_hs[q]);
                            assert(rectangles@.subrange(rb[q], rb[q + 1]) =~= old_rects.subrange(
                                old_rb[q],
                                old_rb[q + 1],
                            ));
                            assert(edges@.subrange(eb[q], eb[q + 1]) =~= old_edges.subrange(
                                old_eb[q],
                                old_eb[q + 1],
                            ));
                        } else {
                            assert(rectangles@.subrange(rb[q], rb[q + 1]) =~= rseg);
                            assert(edges@.subrange(eb[q], eb[q + 1]) =~= eseg);
                        }
                    }
                }
                y = y + h;
            },
        }
        k += 1;
    }
    let out = (rectangles, edges);
    proof {
        assert(trace_renderable(traces@));
        assert(stacked(traces@, out.0@, out.1@, rb, eb, ys, hs));
        assert(stacked_output(traces@, out.0@, out.1@));
        if traces@.len() == 0 {
            assert(out.0@ =~= Seq::<Rectangle>::empty());
            assert(out.1@ =~= Seq::<Edge>::empty());
        }
    }
    Ok(out)
}

/// Multi-run stacking: within a rendered trace, every rectangle of a
/// later run lies at or below the top of any earlier run's offset plus
/// that run's full height, and the combined vertical extent is at least
/// the sum of the runs' heights.
/// Offsets advance by at least each run's height.
pub proof fn lemma_ys_monotone(
    runs: Seq<RunLog>,
    rects: Seq<Rectangle>,
    edges: Seq<Edge>,
    rb: Seq<int>,
    eb: Seq<int>,
    ys: Seq<u64>,
    hs: Seq<u64>,
    a: int,
    b: int,
)
    requires
        stacked(runs, rects, edges, rb, eb, ys, hs),
        0 <= a < b <= runs.len(),
    ensures
        (ys[b] as int) >= (ys[a] as int) + (hs[a] as int),
    decreases b - a,
{
    assert(stacked_at(runs, rects, edges, rb, eb, ys, hs, a));
    assert(stacked_at(runs, rects, edges, rb, eb, ys, hs, b - 1));
    if b > a + 1 {
        lemma_ys_monotone(runs, rects, edges, rb, eb, ys, hs, a, b - 1);
    }
}

#[verifier::rlimit(100)]
pub proof fn lemma_multi_run_stacking(
    runs: Seq<RunLog>,
    rects: Seq<Rectangle>,
    edges: Seq<Edge>,
    rb: Seq<int>,
    eb: Seq<int>,
    ys: Seq<u64>,
    hs: Seq<u64>,
    k1: int,
    k2: int,
)
    requires
        stacked(runs, rects, edges, rb, eb, ys, hs),
        0 <= k1 < k2 < runs.len(),
    ensures
        (ys[k2] as int) >= (ys[k1] as int) + (hs[k1] as int),
        forall|i: int|
            rb[k2] <= i < rb[k2 + 1] ==> ((#[trigger] rects[i]).y as int) >= (ys[k1] as int) + (
            hs[k1] as int),
{
    lemma_ys_monotone(runs, rects, edges, rb, eb, ys, hs, k1, k2);
    assert(stacked_at(runs, rects, edges, rb, eb, ys, hs, k2));
    reveal(run_rendered);
    assert(run_rendered(
        runs[k2],
        ys[k2],
        rects.subrange(rb[k2], rb[k2 + 1]),
        edges.subrange(eb[k2], eb[k2 + 1]),
        hs[k2],
    ));
    assert forall|i: int| rb[k2] <= i < rb[k2 + 1] implies ((#[trigger] rects[i]).y as int) >= (
    ys[k1] as int) + (hs[k1] as int) by {
        let seg = rects.subrange(rb[k2], rb[k2 + 1]);
        assert(seg[i - rb[k2]] == rects[i]);
        assert(seg[i - rb[k2]].y >= ys[k2]);
    }
}

/// Strict multi-run separation: when an earlier run's idle rows stay
/// inside its band (its rectangle-top cap lies above the band's end),
/// every rectangle of any later run starts strictly below every
/// rectangle of that run.
pub proof fn lemma_strict_run_separation(
    runs: Seq<RunLog>,
    rects: Seq<Rectangle>,
    edges: Seq<Edge>,
    rb: Seq<int>,
    eb: Seq<int>,
    ys: Seq<u64>,
    hs: Seq<u64>,
    k1: int,
    k2: int,
)
    requires
        stacked(runs, rects, edges, rb, eb, ys, hs),
        0 <= k1 < k2 < runs.len(),
        rect_top_cap(runs[k1], ys[k1], hs[k1] as int) < (ys[k1] as int) + (hs[k1] as int),
    ensures
        forall|i: int, j: int|
            rb[k1] <= i < rb[k1 + 1] && rb[k2] <= j < rb[k2 + 1] ==> ((#[trigger] rects[i]).y
                as int) < ((#[trigger] rects[j]).y as int),
{
    lemma_ys_monotone(runs, rects, edges, rb, eb, ys, hs, k1, k2);
    assert(stacked_at(runs, rects, edges, rb, eb, ys, hs, k1));
    assert(stacked_at(runs, rects, edges, rb, eb, ys, hs, k2));
    reveal(run_rendered);
    assert forall|i: int, j: int|
        rb[k1] <= i < rb[k1 + 1] && rb[k2] <= j < rb[k2 + 1] implies ((#[trigger] rects[i]).y
        as int) < ((#[trigger] rects[j]).y as int) by {
        let seg1 = rects.subrange(rb[k1], rb[k1 + 1]);
        let seg2 = rects.subrange(rb[k2], rb[k2 + 1]);
        assert(seg1[i - rb[k1]] == rects[i]);
        assert(seg2[j - rb[k2]] == rects[j]);
        assert((rects[i].y as int) <= rect_top_cap(runs[k1], ys[k1], hs[k1] as int));
        assert(rects[j].y >= ys[k2]);
    }
}

} // verus!
