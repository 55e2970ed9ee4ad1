//! Rendering synthesis: rectangles and connector edges for a laid-out run.
//!
//! Walking the tree bottom-up, every task block contributes two stacked
//! rectangles — an opaque outline and a thread-colored body whose opacity
//! encodes relative throughput — and one entry and one exit point at the
//! midpoints of its top and bottom edges.  A sequence connects every exit
//! point of each child to every entry point of the next (a full bipartite
//! set of edges, so joins and forks are all drawn), and passes on its
//! first child's entries and last child's exits.  A parallel block merely
//! pools its children's entry and exit points.

use vstd::prelude::*;
use crate::trace::TaskLog;
use crate::geometry::{color_of, thread_color, Edge, Point, Rectangle, OPAQUE, UNIT};
use crate::fork_join_graph::{arena_view, kids, wf_arena, Block, BlockShape};
use crate::dimensions::{dims_of, sequences_nonempty, tasks_resolved};
use crate::speeds::{lookup, opacity, opacity_of, speeds_of, SpeedEntry};

verus! {

/// The entry points of block `i`: where incoming edges attach.
pub open spec fn entries_of(
    tasks: Seq<TaskLog>,
    g: Seq<BlockShape>,
    pos: Seq<(u64, u64)>,
    dims: Seq<(u64, u64)>,
    i: int,
) -> Seq<Point>
    decreases g.len() - i, 1int, 0int,
    when wf_arena(g) && 0 <= i < g.len()
{
    match g[i] {
        BlockShape::Task(_) => seq![
            Point { x: (pos[i].0 + dims[i].0 / 2) as u64, y: pos[i].1 },
        ],
        BlockShape::Sequence(_) => if kids(g[i]).len() == 0 {
            Seq::empty()
        } else {
            entries_of(tasks, g, pos, dims, kids(g[i])[0] as int)
        },
        BlockShape::Parallel(cs) => pooled_entries(tasks, g, pos, dims, i, cs, 0),
    }
}

/// The exit points of block `i`: where outgoing edges attach.
pub open spec fn exits_of(
    tasks: Seq<TaskLog>,
    g: Seq<BlockShape>,
    pos: Seq<(u64, u64)>,
    dims: Seq<(u64, u64)>,
    i: int,
) -> Seq<Point>
    decreases g.len() - i, 1int, 0int,
    when wf_arena(g) && 0 <= i < g.len()
{
    match g[i] {
        BlockShape::Task(_) => seq![
            Point { x: (pos[i].0 + dims[i].0 / 2) as u64, y: (pos[i].1 + UNIT) as u64 },
        ],
        BlockShape::Sequence(_) => if kids(g[i]).len() == 0 {
            Seq::empty()
        } else {
            exits_of(tasks, g, pos, dims, kids(g[i])[kids(g[i]).len() - 1] as int)
        },
        BlockShape::Parallel(cs) => pooled_exits(tasks, g, pos, dims, i, cs, 0),
    }
}

/// All entry points of children `cs[j..]`, in child order.
pub open spec fn pooled_entries(
    tasks: Seq<TaskLog>,
    g: Seq<BlockShape>,
    pos: Seq<(u64, u64)>,
    dims: Seq<(u64, u64)>,
    i: int,
    cs: Seq<usize>,
    j: int,
) -> Seq<Point>
    decreases g.len() - i, 0int, cs.len() - j,
    when wf_arena(g) && 0 <= i < g.len() && 0 <= j && cs == kids(g[i])
{
    if j >= cs.len() {
        Seq::empty()
    } else {
        entries_of(tasks, g, pos, dims, cs[j] as int) + pooled_entries(
            tasks,
            g,
            pos,
            dims,
            i,
            cs,
            j + 1,
        )
    }
}

/// All exit points of children `cs[j..]`, in child order.
pub open spec fn pooled_exits(
    tasks: Seq<TaskLog>,
    g: Seq<BlockShape>,
    pos: Seq<(u64, u64)>,
    dims: Seq<(u64, u64)>,
    i: int,
    cs: Seq<usize>,
    j: int,
) -> Seq<Point>
    decreases g.len() - i, 0int, cs.len() - j,
    when wf_arena(g) && 0 <= i < g.len() && 0 <= j && cs == kids(g[i])
{
    if j >= cs.len() {
        Seq::empty()
    } else {
        exits_of(tasks, g, pos, dims, cs[j] as int) + pooled_exits(
            tasks,
            g,
            pos,
            dims,
            i,
            cs,
            j + 1,
        )
    }
}

/// The opacity of a task's colored rectangle: fully opaque without a work
/// tag, otherwise scaled by the task's speed against the best of its type.
pub open spec fn task_opacity(tasks: Seq<TaskLog>, sp: Seq<SpeedEntry>, t: int) -> int {
    match tasks[t].work {
        Option::None => OPAQUE as int,
        Option::Some((ty, amt)) => match lookup(sp, ty) {
            Option::None => OPAQUE as int,
            Option::Some((bw, bd)) => opacity_of(
                amt as int,
                tasks[t].end_time - tasks[t].start_time,
                bw as int,
                bd as int,
            ),
        },
    }
}

/// The two stacked rectangles of one task block: opaque black outline,
/// then the thread-colored, throughput-dimmed body carrying the task's
/// time tag.
pub open spec fn task_rects(
    tasks: Seq<TaskLog>,
    sp: Seq<SpeedEntry>,
    t: int,
    position: (u64, u64),
    size: (u64, u64),
) -> Seq<Rectangle> {
    seq![
        Rectangle {
            color: (0, 0, 0),
            opacity: OPAQUE,
            x: position.0,
            y: position.1,
            width: size.0,
            height: size.1,
            animation: Option::None,
        },
        Rectangle {
            color: color_of(tasks[t].thread_id as int),
            opacity: task_opacity(tasks, sp, t) as u32,
            x: position.0,
            y: position.1,
            width: size.0,
            height: size.1,
            animation: Option::Some((tasks[t].start_time, tasks[t].end_time)),
        },
    ]
}

/// All rectangles of the subtree at block `i`, in emission order.
pub open spec fn rects_of(
    tasks: Seq<TaskLog>,
    g: Seq<BlockShape>,
    pos: Seq<(u64, u64)>,
    dims: Seq<(u64, u64)>,
    sp: Seq<SpeedEntry>,
    i: int,
) -> Seq<Rectangle>
    decreases g.len() - i, 1int, 0int,
    when wf_arena(g) && 0 <= i < g.len()
{
    match g[i] {
        BlockShape::Task(t) => task_rects(tasks, sp, t as int, pos[i], dims[i]),
        BlockShape::Sequence(cs) => cat_rects(tasks, g, pos, dims, sp, i, cs, 0),
        BlockShape::Parallel(cs) => cat_rects(tasks, g, pos, dims, sp, i, cs, 0),
    }
}

/// Rectangles of children `cs[j..]`, concatenated in child order.
pub open spec fn cat_rects(
    tasks: Seq<TaskLog>,
    g: Seq<BlockShape>,
    pos: Seq<(u64, u64)>,
    dims: Seq<(u64, u64)>,
    sp: Seq<SpeedEntry>,
    i: int,
    cs: Seq<usize>,
    j: int,
) -> Seq<Rectangle>
    decreases g.len() - i, 0int, cs.len() - j,
    when wf_arena(g) && 0 <= i < g.len() && 0 <= j && cs == kids(g[i])
{
    if j >= cs.len() {
        Seq::empty()
    } else {
        rects_of(tasks, g, pos, dims, sp, cs[j] as int) + cat_rects(
            tasks,
            g,
            pos,
            dims,
            sp,
            i,
            cs,
            j + 1,
        )
    }
}

/// Every pair from one point to each of a list of points.
pub open spec fn fan_from(p: Point, b: Seq<Point>, j: int) -> Seq<Edge>
    decreases b.len() - j,
{
    if j < 0 || j >= b.len() {
        Seq::empty()
    } else {
        seq![(p, b[j])] + fan_from(p, b, j + 1)
    }
}

/// The full bipartite set of edges from points `a[i..]` to points `b`.
pub open spec fn bipartite(a: Seq<Point>, b: Seq<Point>, i: int) -> Seq<Edge>
    decreases a.len() - i,
{
    if i < 0 || i >= a.len() {
        Seq::empty()
    } else {
        fan_from(a[i], b, 0) + bipartite(a, b, i + 1)
    }
}

/// All edges of the subtree at block `i`, in emission order: each child's
/// own edges first, then for a sequence the bipartite connections between
/// consecutive children.
pub open spec fn edges_of(
    tasks: Seq<TaskLog>,
    g: Seq<BlockShape>,
    pos: Seq<(u64, u64)>,
    dims: Seq<(u64, u64)>,
    i: int,
) -> Seq<Edge>
    decreases g.len() - i, 1int, 0int,
    when wf_arena(g) && 0 <= i < g.len()
{
    match g[i] {
        BlockShape::Task(_) => Seq::empty(),
        BlockShape::Sequence(cs) => cat_edges(tasks, g, pos, dims, i, cs, 0) + window_edges(
            tasks,
            g,
            pos,
            dims,
            i,
            cs,
            0,
        ),
        BlockShape::Parallel(cs) => cat_edges(tasks, g, pos, dims, i, cs, 0),
    }
}

/// Edges of children `cs[j..]`, concatenated in child order.
pub open spec fn cat_edges(
    tasks: Seq<TaskLog>,
    g: Seq<BlockShape>,
    pos: Seq<(u64, u64)>,
    dims: Seq<(u64, u64)>,
    i: int,
    cs: Seq<usize>,
    j: int,
) -> Seq<Edge>
    decreases g.len() - i, 0int, cs.len() - j,
    when wf_arena(g) && 0 <= i < g.len() && 0 <= j && cs == kids(g[i])
{
    if j >= cs.len() {
        Seq::empty()
    } else {
        edges_of(tasks, g, pos, dims, cs[j] as int) + cat_edges(tasks, g, pos, dims, i, cs, j + 1)
    }
}

/// Bipartite connections from each child `cs[j]` to its successor.
pub open spec fn window_edges(
    tasks: Seq<TaskLog>,
    g: Seq<BlockShape>,
    pos: Seq<(u64, u64)>,
    dims: Seq<(u64, u64)>,
    i: int,
    cs: Seq<usize>,
    j: int,
) -> Seq<Edge>
    decreases g.len() - i, 0int, cs.len() - j,
    when wf_arena(g) && 0 <= i < g.len() && 0 <= j && cs == kids(g[i])
{
    if j + 1 >= cs.len() {
        Seq::empty()
    } else {
        bipartite(
            exits_of(tasks, g, pos, dims, cs[j] as int),
            entries_of(tasks, g, pos, dims, cs[j + 1] as int),
            0,
        ) + window_edges(tasks, g, pos, dims, i, cs, j + 1)
    }
}


/// Appends one edge from every exit point to every entry point.
fn connect(exits: &Vec<Point>, entries: &Vec<Point>, edges: &mut Vec<Edge>)
    ensures
        final(edges)@ == old(edges)@ + bipartite(exits@, entries@, 0),
{
    let ghost base = edges@;
    let mut a: usize = 0;
    while a < exits.len()
        invariant
            a <= exits@.len(),
            base + bipartite(exits@, entries@, 0) == edges@ + bipartite(exits@, entries@, a as int),
        decreases exits@.len() - a,
    {
        let p = exits[a];
        let ghost mid = edges@;
        let mut b: usize = 0;
        while b < entries.len()
            invariant
                b <= entries@.len(),
                p == exits@[a as int],
                (a as int) < exits@.len(),
                mid + fan_from(exits@[a as int], entries@, 0) == edges@ + fan_from(
                    exits@[a as int],
                    entries@,
                    b as int,
                ),
            decreases entries@.len() - b,
        {
            edges.push((p, entries[b]));
            proof {
                assert(fan_from(exits@[a as int], entries@, b as int) == seq![
                    (exits@[a as int], entries@[b as int]),
                ] + fan_from(exits@[a as int], entries@, b as int + 1));
                assert(mid + fan_from(exits@[a as int], entries@, 0) =~= edges@ + fan_from(
                    exits@[a as int],
                    entries@,
                    b as int + 1,
                ));
            }
            b += 1;
        }
        proof {
            assert(fan_from(exits@[a as int], entries@, entries@.len() as int)
                =~= Seq::<Edge>::empty());
            assert(mid + fan_from(exits@[a as int], entries@, 0) =~= edges@);
            assert(bipartite(exits@, entries@, a as int) == fan_from(
                exits@[a as int],
                entries@,
                0,
            ) + bipartite(exits@, entries@, a as int + 1));
            assert(base + bipartite(exits@, entries@, 0) =~= edges@ + bipartite(
                exits@,
                entries@,
                a as int + 1,
            ));
        }
        a += 1;
    }
    proof {
        assert(bipartite(exits@, entries@, exits@.len() as int) =~= Seq::<Edge>::empty());
        assert(edges@ =~= base + bipartite(exits@, entries@, 0));
    }
}

/// Renders the subtree at `index`: appends its rectangles and edges to the
/// output collections and returns its entry and exit points.
#[verifier::rlimit(60)]
pub fn generate_visualisation(
    tasks: &Vec<TaskLog>,
    graph: &Vec<Block>,
    dims: &Vec<(u64, u64)>,
    positions: &Vec<(u64, u64)>,
    sp: &Vec<SpeedEntry>,
    index: usize,
    rectangles: &mut Vec<Rectangle>,
    edges: &mut Vec<Edge>,
) -> (pts: (Vec<Point>, Vec<Point>))
    requires
        wf_arena(arena_view(graph@)),
        tasks_resolved(tasks@, arena_view(graph@)),
        sequences_nonempty(arena_view(graph@)),
        (index as int) < graph@.len(),
        dims@.len() == graph@.len(),
        forall|i: int|
            0 <= i < graph@.len() ==> ((#[trigger] dims@[i]).0 as int, dims@[i].1 as int)
                == dims_of(tasks@, arena_view(graph@), i),
        positions@.len() == graph@.len(),
        forall|b: int|
            0 <= b < graph@.len() ==> ((#[trigger] positions@[b]).0 as int) + dims_of(
                tasks@,
                arena_view(graph@),
                b,
            ).0 <= u64::MAX && (positions@[b].1 as int) + dims_of(
                tasks@,
                arena_view(graph@),
                b,
            ).1 <= u64::MAX,
        sp@ == speeds_of(tasks@),
        forall|i: int|
            0 <= i < tasks@.len() ==> ((#[trigger] tasks@[i]).work is Some ==> tasks@[i].start_time
                < tasks@[i].end_time),
    ensures
        final(rectangles)@ == old(rectangles)@ + rects_of(
            tasks@,
            arena_view(graph@),
            positions@,
            dims@,
            sp@,
            index as int,
        ),
        final(edges)@ == old(edges)@ + edges_of(
            tasks@,
            arena_view(graph@),
            positions@,
            dims@,
            index as int,
        ),
        pts.0@ == entries_of(tasks@, arena_view(graph@), positions@, dims@, index as int),
        pts.1@ == exits_of(tasks@, arena_view(graph@), positions@, dims@, index as int),
    decreases graph@.len() - index,
{
    let ghost gv = arena_view(graph@);
    let ghost posv = positions@;
    let ghost dimsv = dims@;
    let ghost spv = sp@;
    proof {
        crate::fork_join_graph::lemma_arena_view_index(graph@, index as int);
    }
    match &graph[index] {
        Block::Task(tid) => {
            let t = *tid;
            let task = &tasks[t];
            let (x, y) = positions[index];
            let (w, hh) = dims[index];
            rectangles.push(
                Rectangle::new((0, 0, 0), OPAQUE, (x, y), (w, hh), None),
            );
            let op: u32 = match task.work {
                None => OPAQUE,
                Some((ty, amt)) => {
                    let dur = task.end_time - task.start_time;
                    let mut idx: usize = 0;
                    let m = sp.len();
                    while idx < m && sp[idx].0 != ty
                        invariant
                            idx <= m,
                            m == sp@.len(),
                            forall|j: int| 0 <= j < idx ==> (#[trigger] sp@[j]).0 != ty,
                        decreases m - idx,
                    {
                        idx += 1;
                    }
                    if idx == m {
                        proof {
                            crate::speeds::lemma_lookup_none(sp@, ty);
                        }
                        OPAQUE
                    } else {
                        let (bw, bd) = sp[idx].1;
                        proof {
                            crate::speeds::lemma_lookup_at(sp@, idx as int, ty);
                            crate::speeds::lemma_speeds_sound(tasks@, tasks@.len() as int);
                            assert(crate::speeds::covered(tasks@, spv, t as int));
                        }
                        opacity(amt, dur, bw, bd)
                    }
                },
            };
            rectangles.push(
                Rectangle::new(
                    thread_color(task.thread_id),
                    op,
                    (x, y),
                    (w, hh),
                    Some((task.start_time, task.end_time)),
                ),
            );
            proof {
                assert(rectangles@ =~= old(rectangles)@ + rects_of(
                    tasks@,
                    gv,
                    posv,
                    dimsv,
                    spv,
                    index as int,
                ));
            }
            let mut ent: Vec<Point> = Vec::new();
            let mut ext: Vec<Point> = Vec::new();
            ent.push(Point { x: x + w / 2, y });
            ext.push(Point { x: x + w / 2, y: y + UNIT });
            proof {
                assert(ent@ =~= entries_of(tasks@, gv, posv, dimsv, index as int));
                assert(ext@ =~= exits_of(tasks@, gv, posv, dimsv, index as int));
                assert(edges@ =~= old(edges)@ + edges_of(
                    tasks@,
                    gv,
                    posv,
                    dimsv,
                    index as int,
                ));
            }
            (ent, ext)
        },
        Block::Sequence(cs) => {
            let ghost csv = cs@;
            let ghost base_r = rectangles@;
            let ghost base_e = edges@;
            let mut child_entries: Vec<Vec<Point>> = Vec::new();
            let mut child_exits: Vec<Vec<Point>> = Vec::new();
            let k = cs.len();
            let mut j: usize = 0;
            while j < k
                invariant
                    j <= k,
                    k == csv.len(),
                    csv == cs@,
                    csv == kids(gv[index as int]),
                    gv[index as int] is Sequence,
                    (index as int) < graph@.len(),
                    gv == arena_view(graph@),
                    gv.len() == graph@.len(),
                    wf_arena(gv),
                    tasks_resolved(tasks@, gv),
                    sequences_nonempty(gv),
                    dims@.len() == graph@.len(),
                    dimsv == dims@,
                    posv == positions@,
                    spv == sp@,
                    forall|i: int|
                        0 <= i < graph@.len() ==> ((#[trigger] dims@[i]).0 as int, dims@[i].1 as int) == dims_of(tasks@, gv, i),
                    positions@.len() == graph@.len(),
                    forall|b: int|
                        0 <= b < graph@.len() ==> ((#[trigger] positions@[b]).0 as int) + dims_of(
                            tasks@,
                            gv,
                            b,
                        ).0 <= u64::MAX && (positions@[b].1 as int) + dims_of(tasks@, gv, b).1
                            <= u64::MAX,
                    sp@ == speeds_of(tasks@),
                    forall|i: int|
                        0 <= i < tasks@.len() ==> ((#[trigger] tasks@[i]).work is Some
                            ==> tasks@[i].start_time < tasks@[i].end_time),
                    rectangles@ + cat_rects(tasks@, gv, posv, dimsv, spv, index as int, csv, j as int)
                        == base_r + cat_rects(tasks@, gv, posv, dimsv, spv, index as int, csv, 0),
                    edges@ + cat_edges(tasks@, gv, posv, dimsv, index as int, csv, j as int)
                        == base_e + cat_edges(tasks@, gv, posv, dimsv, index as int, csv, 0),
                    child_entries@.len() == j,
                    child_exits@.len() == j,
                    forall|q: int|
                        0 <= q < j ==> (#[trigger] child_entries@[q])@ == entries_of(
                            tasks@,
                            gv,
                            posv,
                            dimsv,
                            csv[q] as int,
                        ),
                    forall|q: int|
                        0 <= q < j ==> (#[trigger] child_exits@[q])@ == exits_of(
                            tasks@,
                            gv,
                            posv,
                            dimsv,
                            csv[q] as int,
                        ),
                decreases k - j,
            {
                let c = cs[j];
                proof {
                    assert(kids(gv[index as int])[j as int] == csv[j as int]);
                    assert(index < (csv[j as int] as int) && (csv[j as int] as int)
                        < graph@.len());
                }
                let ghost r_before = rectangles@;
                let ghost e_before = edges@;
                let (en, ex) = generate_visualisation(
                    tasks,
                    graph,
                    dims,
                    positions,
                    sp,
                    c,
                    rectangles,
                    edges,
                );
                child_entries.push(en);
                child_exits.push(ex);
                proof {
                    assert(cat_rects(tasks@, gv, posv, dimsv, spv, index as int, csv, j as int)
                        == rects_of(tasks@, gv, posv, dimsv, spv, csv[j as int] as int)
                        + cat_rects(
                        tasks@,
                        gv,
                        posv,
                        dimsv,
                        spv,
                        index as int,
                        csv,
                        j as int + 1,
                    ));
                    assert(rectangles@ + cat_rects(
                        tasks@,
                        gv,
                        posv,
                        dimsv,
                        spv,
                        index as int,
                        csv,
                        j as int + 1,
                    ) =~= base_r + cat_rects(tasks@, gv, posv, dimsv, spv, index as int, csv, 0));
                    assert(cat_edges(tasks@, gv, posv, dimsv, index as int, csv, j as int)
                        == edges_of(tasks@, gv, posv, dimsv, csv[j as int] as int) + cat_edges(
                        tasks@,
                        gv,
                        posv,
                        dimsv,
                        index as int,
                        csv,
                        j as int + 1,
                    ));
                    assert(edges@ + cat_edges(
                        tasks@,
                        gv,
                        posv,
                        dimsv,
                        index as int,
                        csv,
                        j as int + 1,
                    ) =~= base_e + cat_edges(tasks@, gv, posv, dimsv, index as int, csv, 0));
                }
                j += 1;
            }
            proof {
                assert(cat_rects(tasks@, gv, posv, dimsv, spv, index as int, csv, csv.len() as int)
                    =~= Seq::<Rectangle>::empty());
                assert(rectangles@ =~= base_r + cat_rects(
                    tasks@,
                    gv,
                    posv,
                    dimsv,
                    spv,
                    index as int,
                    csv,
                    0,
                ));
                assert(cat_edges(tasks@, gv, posv, dimsv, index as int, csv, csv.len() as int)
                    =~= Seq::<Edge>::empty());
            }
            let ghost mid_e = edges@;
            proof {
                assert(kids(gv[index as int]).len() >= 1);
            }
            let mut w: usize = 0;
            while w < k - 1
                invariant
                    k == csv.len(),
                    1 <= k,
                    w <= k,
                    csv == kids(gv[index as int]),
                    gv[index as int] is Sequence,
                    (index as int) < graph@.len(),
                    gv == arena_view(graph@),
                    gv.len() == graph@.len(),
                    wf_arena(gv),
                    dimsv == dims@,
                    posv == positions@,
                    child_entries@.len() == k,
                    child_exits@.len() == k,
                    forall|q: int|
                        0 <= q < k ==> (#[trigger] child_entries@[q])@ == entries_of(
                            tasks@,
                            gv,
                            posv,
                            dimsv,
                            csv[q] as int,
                        ),
                    forall|q: int|
                        0 <= q < k ==> (#[trigger] child_exits@[q])@ == exits_of(
                            tasks@,
                            gv,
                            posv,
                            dimsv,
                            csv[q] as int,
                        ),
                    edges@ + window_edges(tasks@, gv, posv, dimsv, index as int, csv, w as int)
                        == mid_e + window_edges(tasks@, gv, posv, dimsv, index as int, csv, 0),
                decreases k - w,
            {
                connect(&child_exits[w], &child_entries[w + 1], edges);
                proof {
                    assert(window_edges(tasks@, gv, posv, dimsv, index as int, csv, w as int)
                        == bipartite(
                        exits_of(tasks@, gv, posv, dimsv, csv[w as int] as int),
                        entries_of(tasks@, gv, posv, dimsv, csv[w as int + 1] as int),
                        0,
                    ) + window_edges(tasks@, gv, posv, dimsv, index as int, csv, w as int + 1));
                    assert(edges@ + window_edges(
                        tasks@,
                        gv,
                        posv,
                        dimsv,
                        index as int,
                        csv,
                        w as int + 1,
                    ) =~= mid_e + window_edges(tasks@, gv, posv, dimsv, index as int, csv, 0));
                }
                w += 1;
            }
            proof {
                assert(window_edges(tasks@, gv, posv, dimsv, index as int, csv, w as int)
                    =~= Seq::<Edge>::empty());
                assert(edges@ =~= mid_e + window_edges(
                    tasks@,
                    gv,
                    posv,
                    dimsv,
                    index as int,
                    csv,
                    0,
                ));
                assert(edges@ =~= old(edges)@ + edges_of(
                    tasks@,
                    gv,
                    posv,
                    dimsv,
                    index as int,
                )) by {
                    assert(edges@ =~= base_e + (cat_edges(
                        tasks@,
                        gv,
                        posv,
                        dimsv,
                        index as int,
                        csv,
                        0,
                    ) + window_edges(tasks@, gv, posv, dimsv, index as int, csv, 0)));
                }
            }
            let ent = child_entries.remove(0);
            let ext = child_exits.pop().unwrap();
            proof {
                assert(csv.len() >= 1);
                assert(ent@ == entries_of(tasks@, gv, posv, dimsv, index as int));
                assert(ext@ == exits_of(tasks@, gv, posv, dimsv, index as int));
            }
            (ent, ext)
        },
        Block::Parallel(cs) => {
            let ghost csv = cs@;
            let ghost base_r = rectangles@;
            let ghost base_e = edges@;
            let mut ent: Vec<Point> = Vec::new();
            let mut ext: Vec<Point> = Vec::new();
            let k = cs.len();
            let mut j: usize = 0;
            while j < k
                invariant
                    j <= k,
                    k == csv.len(),
                    csv == cs@,
                    csv == kids(gv[index as int]),
                    gv[index as int] is Parallel,
                    (index as int) < graph@.len(),
                    gv == arena_view(graph@),
                    gv.len() == graph@.len(),
                    wf_arena(gv),
                    tasks_resolved(tasks@, gv),
                    sequences_nonempty(gv),
                    dims@.len() == graph@.len(),
                    dimsv == dims@,
                    posv == positions@,
                    spv == sp@,
                    forall|i: int|
                        0 <= i < graph@.len() ==> ((#[trigger] dims@[i]).0 as int, dims@[i].1 as int) == dims_of(tasks@, gv, i),
                    positions@.len() == graph@.len(),
                    forall|b: int|
                        0 <= b < graph@.len() ==> ((#[trigger] positions@[b]).0 as int) + dims_of(
                            tasks@,
                            gv,
                            b,
                        ).0 <= u64::MAX && (positions@[b].1 as int) + dims_of(tasks@, gv, b).1
                            <= u64::MAX,
                    sp@ == speeds_of(tasks@),
                    forall|i: int|
                        0 <= i < tasks@.len() ==> ((#[trigger] tasks@[i]).work is Some
                            ==> tasks@[i].start_time < tasks@[i].end_time),
                    rectangles@ + cat_rects(tasks@, gv, posv, dimsv, spv, index as int, csv, j as int)
                        == base_r + cat_rects(tasks@, gv, posv, dimsv, spv, index as int, csv, 0),
                    edges@ + cat_edges(tasks@, gv, posv, dimsv, index as int, csv, j as int)
                        == base_e + cat_edges(tasks@, gv, posv, dimsv, index as int, csv, 0),
                    ent@ + pooled_entries(tasks@, gv, posv, dimsv, index as int, csv, j as int)
                        == pooled_entries(tasks@, gv, posv, dimsv, index as int, csv, 0),
                    ext@ + pooled_exits(tasks@, gv, posv, dimsv, index as int, csv, j as int)
                        == pooled_exits(tasks@, gv, posv, dimsv, index as int, csv, 0),
                decreases k - j,
            {
                let c = cs[j];
                proof {
                    assert(kids(gv[index as int])[j as int] == csv[j as int]);
                    assert(index < (csv[j as int] as int) && (csv[j as int] as int)
                        < graph@.len());
                }
                let (mut en, mut ex) = generate_visualisation(
                    tasks,
                    graph,
                    dims,
                    positions,
                    sp,
                    c,
                    rectangles,
                    edges,
                );
                ent.append(&mut en);
                ext.append(&mut ex);
                proof {
                    assert(rectangles@ + cat_rects(
                        tasks@,
                        gv,
                        posv,
                        dimsv,
                        spv,
                        index as int,
                        csv,
                        j as int + 1,
                    ) =~= base_r + cat_rects(tasks@, gv, posv, dimsv, spv, index as int, csv, 0));
                    assert(edges@ + cat_edges(
                        tasks@,
                        gv,
                        posv,
                        dimsv,
                        index as int,
                        csv,
                        j as int + 1,
                    ) =~= base_e + cat_edges(tasks@, gv, posv, dimsv, index as int, csv, 0));
                    assert(ent@ + pooled_entries(
                        tasks@,
                        gv,
                        posv,
                        dimsv,
                        index as int,
                        csv,
                        j as int + 1,
                    ) =~= pooled_entries(tasks@, gv, posv, dimsv, index as int, csv, 0));
                    assert(ext@ + pooled_exits(
                        tasks@,
                        gv,
                        posv,
                        dimsv,
                        index as int,
                        csv,
                        j as int + 1,
                    ) =~= pooled_exits(tasks@, gv, posv, dimsv, index as int, csv, 0));
                }
                j += 1;
            }
            proof {
                assert(pooled_entries(tasks@, gv, posv, dimsv, index as int, csv, csv.len() as int)
                    =~= Seq::<Point>::empty());
                assert(pooled_exits(tasks@, gv, posv, dimsv, index as int, csv, csv.len() as int)
                    =~= Seq::<Point>::empty());
                assert(cat_rects(tasks@, gv, posv, dimsv, spv, index as int, csv, csv.len() as int)
                    =~= Seq::<Rectangle>::empty());
                assert(cat_edges(tasks@, gv, posv, dimsv, index as int, csv, csv.len() as int)
                    =~= Seq::<Edge>::empty());
                assert(ent@ =~= ent@ + Seq::<Point>::empty());
                assert(ext@ =~= ext@ + Seq::<Point>::empty());
                assert(rectangles@ =~= rectangles@ + Seq::<Rectangle>::empty());
                assert(edges@ =~= edges@ + Seq::<Edge>::empty());
            }
            (ent, ext)
        },
    }
}

} // verus!
