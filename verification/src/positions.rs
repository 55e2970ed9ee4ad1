//! Top-down position pass: absolute coordinates of every block.
//!
//! The caller supplies the root's origin.  A sequence stacks its children
//! downward in list order, each centered horizontally in the parent's
//! width; a parallel block places its children rightward in list order,
//! each centered vertically in the parent's height.  Parents carry smaller
//! arena indices than their children, so one forward scan of the arena
//! positions every block after its parent.

use vstd::prelude::*;
use vstd::pervasive::VecAdditionalExecFns;
use crate::trace::TaskLog;
use crate::geometry::VERTICAL_GAP;
use crate::fork_join_graph::{
    arena_view, kids, occ, parent_count, tree_arena, wf_arena, Block, BlockShape,
};
use crate::dimensions::{
    dims_of, lemma_dims_nonneg, lemma_par_dims_nonneg, lemma_seq_dims_nonneg, par_dims, seq_dims,
    sequences_nonempty, tasks_resolved,
};

verus! {

/// Vertical offset of child `q` within a sequence block `i`: the heights
/// of the children before it, plus one gap after each.
pub open spec fn seq_off(tasks: Seq<TaskLog>, g: Seq<BlockShape>, i: int, cs: Seq<usize>, q: int) -> int
    decreases q,
    when wf_arena(g) && 0 <= i < g.len() && cs == kids(g[i]) && 0 <= q <= cs.len()
{
    if q <= 0 {
        0
    } else {
        seq_off(tasks, g, i, cs, q - 1) + dims_of(tasks, g, cs[q - 1] as int).1 + (
        VERTICAL_GAP as int)
    }
}

/// Horizontal offset of child `q` within a parallel block `i`: the widths
/// of the children before it.
pub open spec fn par_off(tasks: Seq<TaskLog>, g: Seq<BlockShape>, i: int, cs: Seq<usize>, q: int) -> int
    decreases q,
    when wf_arena(g) && 0 <= i < g.len() && cs == kids(g[i]) && 0 <= q <= cs.len()
{
    if q <= 0 {
        0
    } else {
        par_off(tasks, g, i, cs, q - 1) + dims_of(tasks, g, cs[q - 1] as int).0
    }
}

/// Where child `q` of block `p` belongs, given the parent's position.
pub open spec fn child_pos(
    tasks: Seq<TaskLog>,
    g: Seq<BlockShape>,
    pos: Seq<(u64, u64)>,
    p: int,
    q: int,
) -> (int, int) {
    let c = kids(g[p])[q] as int;
    match g[p] {
        BlockShape::Sequence(cs) => (
            pos[p].0 + (dims_of(tasks, g, p).0 - dims_of(tasks, g, c).0) / 2,
            pos[p].1 + seq_off(tasks, g, p, cs, q),
        ),
        BlockShape::Parallel(cs) => (
            pos[p].0 + par_off(tasks, g, p, cs, q),
            pos[p].1 + (dims_of(tasks, g, p).1 - dims_of(tasks, g, c).1) / 2,
        ),
        BlockShape::Task(_) => (0, 0),
    }
}

/// Every child of every block sits exactly where its parent's layout rule
/// puts it.
pub open spec fn positions_consistent(
    tasks: Seq<TaskLog>,
    g: Seq<BlockShape>,
    pos: Seq<(u64, u64)>,
) -> bool {
    forall|p: int, q: int|
        0 <= p < g.len() && 0 <= q < kids(#[trigger] g[p]).len() ==> ((
        #[trigger] pos[kids(g[p])[q] as int]).0 as int, pos[kids(g[p])[q] as int].1 as int)
            == child_pos(tasks, g, pos, p, q)
}

pub proof fn lemma_occ_ge_one(s: Seq<usize>, idx: int, c: usize)
    requires
        0 <= idx < s.len(),
        s[idx] == c,
    ensures
        occ(s, c) >= 1,
    decreases s.len(),
{
    if idx == s.len() - 1 {
    } else {
        lemma_occ_ge_one(s.drop_last(), idx, c);
    }
}

pub proof fn lemma_occ_ge_two(s: Seq<usize>, idx1: int, idx2: int, c: usize)
    requires
        0 <= idx1 < idx2 < s.len(),
        s[idx1] == c,
        s[idx2] == c,
    ensures
        occ(s, c) >= 2,
    decreases s.len(),
{
    if idx2 == s.len() - 1 {
        lemma_occ_ge_one(s.drop_last(), idx1, c);
    } else {
        lemma_occ_ge_two(s.drop_last(), idx1, idx2, c);
    }
}

pub proof fn lemma_pc_ge_occ(g: Seq<BlockShape>, p: int, c: usize)
    requires
        0 <= p < g.len(),
    ensures
        parent_count(g, c) >= occ(kids(g[p]), c),
    decreases g.len(),
{
    if p == g.len() - 1 {
    } else {
        lemma_pc_ge_occ(g.drop_last(), p, c);
    }
}

pub proof fn lemma_pc_ge_occ2(g: Seq<BlockShape>, p1: int, p2: int, c: usize)
    requires
        0 <= p1 < p2 < g.len(),
    ensures
        parent_count(g, c) >= occ(kids(g[p1]), c) + occ(kids(g[p2]), c),
    decreases g.len(),
{
    if p2 == g.len() - 1 {
        lemma_pc_ge_occ(g.drop_last(), p1, c);
    } else {
        lemma_pc_ge_occ2(g.drop_last(), p1, p2, c);
    }
}

/// In a proper tree, a child occurrence is unique: the same block cannot
/// stand in two child-list slots.
pub proof fn lemma_unique_parent(g: Seq<BlockShape>, p1: int, q1: int, p2: int, q2: int)
    requires
        0 <= p1 < g.len(),
        0 <= q1 < kids(g[p1]).len(),
        0 <= p2 < g.len(),
        0 <= q2 < kids(g[p2]).len(),
        kids(g[p1])[q1] == kids(g[p2])[q2],
        parent_count(g, kids(g[p1])[q1]) <= 1,
    ensures
        p1 == p2 && q1 == q2,
{
    let c = kids(g[p1])[q1];
    if p1 == p2 {
        if q1 != q2 {
            if q1 < q2 {
                lemma_occ_ge_two(kids(g[p1]), q1, q2, c);
            } else {
                lemma_occ_ge_two(kids(g[p1]), q2, q1, c);
            }
            lemma_pc_ge_occ(g, p1, c);
        }
    } else {
        lemma_occ_ge_one(kids(g[p1]), q1, c);
        lemma_occ_ge_one(kids(g[p2]), q2, c);
        if p1 < p2 {
            lemma_pc_ge_occ2(g, p1, p2, c);
        } else {
            lemma_pc_ge_occ2(g, p2, p1, c);
        }
    }
}

/// A block with a parent occurrence has one: the witness pair.
pub proof fn lemma_pc_witness(g: Seq<BlockShape>, c: usize)
    requires
        parent_count(g, c) >= 1,
    ensures
        exists|p: int, q: int|
            0 <= p < g.len() && 0 <= q < kids(g[p]).len() && #[trigger] kids(g[p])[q] == c,
    decreases g.len(),
{
    if g.len() > 0 {
        if occ(kids(g.last()), c) >= 1 {
            lemma_occ_witness(kids(g.last()), c);
            let q = choose|q: int| 0 <= q < kids(g.last()).len() && kids(g.last())[q] == c;
            assert(g[g.len() - 1] == g.last());
            assert(kids(g[g.len() - 1])[q] == c);
        } else {
            lemma_pc_witness(g.drop_last(), c);
            let (p, q) = choose|p: int, q: int|
                0 <= p < g.drop_last().len() && 0 <= q < kids(g.drop_last()[p]).len()
                    && #[trigger] kids(g.drop_last()[p])[q] == c;
            assert(g[p] == g.drop_last()[p]);
            assert(kids(g[p])[q] == c);
        }
    }
}

pub proof fn lemma_occ_witness(s: Seq<usize>, c: usize)
    requires
        occ(s, c) >= 1,
    ensures
        exists|q: int| 0 <= q < s.len() && s[q] == c,
    decreases s.len(),
{
    if s.len() > 0 {
        if s.last() == c {
            assert(s[s.len() - 1] == c);
        } else {
            lemma_occ_witness(s.drop_last(), c);
            let q = choose|q: int| 0 <= q < s.drop_last().len() && s.drop_last()[q] == c;
            assert(s[q] == c);
        }
    }
}

/// Bounds of a sequence child against the suffix it belongs to.
pub proof fn lemma_seq_suffix_bounds(
    tasks: Seq<TaskLog>,
    g: Seq<BlockShape>,
    p: int,
    cs: Seq<usize>,
    j: int,
    q: int,
)
    requires
        wf_arena(g),
        tasks_resolved(tasks, g),
        sequences_nonempty(g),
        0 <= p < g.len(),
        cs == kids(g[p]),
        0 <= j <= q < cs.len(),
    ensures
        dims_of(tasks, g, cs[q] as int).0 <= seq_dims(tasks, g, p, cs, j).0,
        seq_off(tasks, g, p, cs, q) - seq_off(tasks, g, p, cs, j) + dims_of(
            tasks,
            g,
            cs[q] as int,
        ).1 <= seq_dims(tasks, g, p, cs, j).1,
    decreases q - j,
{
    lemma_seq_dims_nonneg(tasks, g, p, cs, j + 1);
    lemma_dims_nonneg(tasks, g, cs[j] as int);
    if j == q {
    } else {
        lemma_seq_suffix_bounds(tasks, g, p, cs, j + 1, q);
    }
}

/// Bounds of a parallel child against the suffix it belongs to.
pub proof fn lemma_par_suffix_bounds(
    tasks: Seq<TaskLog>,
    g: Seq<BlockShape>,
    p: int,
    cs: Seq<usize>,
    j: int,
    q: int,
)
    requires
        wf_arena(g),
        tasks_resolved(tasks, g),
        sequences_nonempty(g),
        0 <= p < g.len(),
        cs == kids(g[p]),
        0 <= j <= q < cs.len(),
    ensures
        dims_of(tasks, g, cs[q] as int).1 <= par_dims(tasks, g, p, cs, j).1,
        par_off(tasks, g, p, cs, q) - par_off(tasks, g, p, cs, j) + dims_of(
            tasks,
            g,
            cs[q] as int,
        ).0 <= par_dims(tasks, g, p, cs, j).0,
    decreases q - j,
{
    lemma_par_dims_nonneg(tasks, g, p, cs, j + 1);
    lemma_dims_nonneg(tasks, g, cs[j] as int);
    if j == q {
    } else {
        lemma_par_suffix_bounds(tasks, g, p, cs, j + 1, q);
    }
}

pub proof fn lemma_off_nonneg(tasks: Seq<TaskLog>, g: Seq<BlockShape>, p: int, cs: Seq<usize>, q: int)
    requires
        wf_arena(g),
        tasks_resolved(tasks, g),
        sequences_nonempty(g),
        0 <= p < g.len(),
        cs == kids(g[p]),
        0 <= q <= cs.len(),
    ensures
        seq_off(tasks, g, p, cs, q) >= 0,
        par_off(tasks, g, p, cs, q) >= 0,
    decreases q,
{
    if q > 0 {
        lemma_off_nonneg(tasks, g, p, cs, q - 1);
        lemma_dims_nonneg(tasks, g, cs[q - 1] as int);
    }
}

/// Layout containment: a child's box lies inside its parent's box.
pub proof fn lemma_layout_containment(
    tasks: Seq<TaskLog>,
    g: Seq<BlockShape>,
    pos: Seq<(u64, u64)>,
    p: int,
    q: int,
)
    requires
        wf_arena(g),
        tasks_resolved(tasks, g),
        sequences_nonempty(g),
        positions_consistent(tasks, g, pos),
        pos.len() == g.len(),
        0 <= p < g.len(),
        0 <= q < kids(g[p]).len(),
    ensures
        pos[p].0 <= pos[kids(g[p])[q] as int].0,
        pos[p].1 <= pos[kids(g[p])[q] as int].1,
        (pos[kids(g[p])[q] as int].0 as int) + dims_of(tasks, g, kids(g[p])[q] as int).0 <= (
        pos[p].0 as int) + dims_of(tasks, g, p).0,
        (pos[kids(g[p])[q] as int].1 as int) + dims_of(tasks, g, kids(g[p])[q] as int).1 <= (
        pos[p].1 as int) + dims_of(tasks, g, p).1,
    decreases g.len() - p,
{
    let c = kids(g[p])[q] as int;
    lemma_dims_nonneg(tasks, g, p);
    lemma_dims_nonneg(tasks, g, c);
    let cs = kids(g[p]);
    lemma_off_nonneg(tasks, g, p, cs, q);
    lemma_seq_suffix_bounds_entry(tasks, g, p, q);
}

/// Helper: bounds of child `q` against the whole child list.
pub proof fn lemma_seq_suffix_bounds_entry(tasks: Seq<TaskLog>, g: Seq<BlockShape>, p: int, q: int)
    requires
        wf_arena(g),
        tasks_resolved(tasks, g),
        sequences_nonempty(g),
        0 <= p < g.len(),
        0 <= q < kids(g[p]).len(),
    ensures
        g[p] is Sequence ==> dims_of(tasks, g, kids(g[p])[q] as int).0 <= dims_of(tasks, g, p).0
            && seq_off(tasks, g, p, kids(g[p]), q) + dims_of(tasks, g, kids(g[p])[q] as int).1
            <= dims_of(tasks, g, p).1,
        g[p] is Parallel ==> dims_of(tasks, g, kids(g[p])[q] as int).1 <= dims_of(tasks, g, p).1
            && par_off(tasks, g, p, kids(g[p]), q) + dims_of(tasks, g, kids(g[p])[q] as int).0
            <= dims_of(tasks, g, p).0,
{
    let cs = kids(g[p]);
    match g[p] {
        BlockShape::Sequence(_) => {
            lemma_seq_suffix_bounds(tasks, g, p, cs, 0, q);
        },
        BlockShape::Parallel(_) => {
            lemma_par_suffix_bounds(tasks, g, p, cs, 0, q);
        },
        BlockShape::Task(_) => {},
    }
}

/// Assigns every block its absolute position, parents before children,
/// starting from the root at `origin`.  Every block's box stays inside the
/// root's box, so all coordinates fit `u64` by the `origin` bounds.
pub fn compute_positions(
    tasks: &Vec<TaskLog>,
    graph: &Vec<Block>,
    dims: &Vec<(u64, u64)>,
    origin: (u64, u64),
) -> (pos: Vec<(u64, u64)>)
    requires
        tree_arena(arena_view(graph@)),
        tasks_resolved(tasks@, arena_view(graph@)),
        sequences_nonempty(arena_view(graph@)),
        dims@.len() == graph@.len(),
        forall|i: int|
            0 <= i < graph@.len() ==> ((#[trigger] dims@[i]).0 as int, dims@[i].1 as int)
                == dims_of(tasks@, arena_view(graph@), i),
        (origin.0 as int) + dims_of(tasks@, arena_view(graph@), 0).0 <= u64::MAX,
        (origin.1 as int) + dims_of(tasks@, arena_view(graph@), 0).1 <= u64::MAX,
    ensures
        pos@.len() == graph@.len(),
        pos@[0] == origin,
        positions_consistent(tasks@, arena_view(graph@), pos@),
        forall|b: int|
            0 <= b < graph@.len() ==> origin.0 <= (#[trigger] pos@[b]).0 && origin.1 <= pos@[b].1
                && (pos@[b].0 as int) + dims_of(tasks@, arena_view(graph@), b).0 <= (
            origin.0 as int) + dims_of(tasks@, arena_view(graph@), 0).0 && (pos@[b].1 as int)
                + dims_of(tasks@, arena_view(graph@), b).1 <= (origin.1 as int) + dims_of(
                tasks@,
                arena_view(graph@),
                0,
            ).1,
{
    let ghost gv = arena_view(graph@);
    proof {
        crate::fork_join_graph::lemma_arena_view_len(graph@);
    }
    let n = graph.len();
    let mut pos: Vec<(u64, u64)> = Vec::new();
    let mut z: usize = 0;
    while z < n
        invariant
            z <= n,
            pos@.len() == z,
        decreases n - z,
    {
        pos.push((0, 0));
        z += 1;
    }
    pos.set(0, origin);
    let mut i: usize = 0;
    while i < n
        invariant
            i <= n,
            n == graph@.len(),
            gv == arena_view(graph@),
            gv.len() == n,
            tree_arena(gv),
            tasks_resolved(tasks@, gv),
            sequences_nonempty(gv),
            dims@.len() == n,
            forall|ii: int|
                0 <= ii < n ==> ((#[trigger] dims@[ii]).0 as int, dims@[ii].1 as int) == dims_of(
                    tasks@,
                    gv,
                    ii,
                ),
            (origin.0 as int) + dims_of(tasks@, gv, 0).0 <= u64::MAX,
            (origin.1 as int) + dims_of(tasks@, gv, 0).1 <= u64::MAX,
            pos@.len() == n,
            pos@[0] == origin,
            forall|p: int, q: int|
                0 <= p < i && 0 <= q < kids(#[trigger] gv[p]).len() ==> ((#[trigger] pos@[kids(
                    gv[p],
                )[q] as int]).0 as int, pos@[kids(gv[p])[q] as int].1 as int) == child_pos(
                    tasks@,
                    gv,
                    pos@,
                    p,
                    q,
                ),
            forall|p: int, q: int|
                0 <= p < i && 0 <= q < kids(#[trigger] gv[p]).len() ==> origin.0 <= (
                #[trigger] pos@[kids(gv[p])[q] as int]).0 && origin.1 <= pos@[kids(
                    gv[p],
                )[q] as int].1 && (pos@[kids(gv[p])[q] as int].0 as int) + dims_of(
                    tasks@,
                    gv,
                    kids(gv[p])[q] as int,
                ).0 <= (origin.0 as int) + dims_of(tasks@, gv, 0).0 && (pos@[kids(
                    gv[p],
                )[q] as int].1 as int) + dims_of(tasks@, gv, kids(gv[p])[q] as int).1 <= (
                origin.1 as int) + dims_of(tasks@, gv, 0).1,
        decreases n - i,
    {
        proof {
            crate::fork_join_graph::lemma_arena_view_index(graph@, i as int);
            lemma_dims_nonneg(tasks@, gv, i as int);
            // the block being processed already has its position and bounds
            if i > 0 {
                assert(parent_count(gv, i as usize) == 1);
                lemma_pc_witness(gv, i as usize);
                let (p, q) = choose|p: int, q: int|
                    0 <= p < gv.len() && 0 <= q < kids(gv[p]).len() && #[trigger] kids(gv[p])[q]
                        == i as usize;
                assert(p < i);
                assert(origin.0 <= pos@[i as int].0 && origin.1 <= pos@[i as int].1 && (
                pos@[i as int].0 as int) + dims_of(tasks@, gv, i as int).0 <= (origin.0 as int)
                    + dims_of(tasks@, gv, 0).0 && (pos@[i as int].1 as int) + dims_of(
                    tasks@,
                    gv,
                    i as int,
                ).1 <= (origin.1 as int) + dims_of(tasks@, gv, 0).1);
            }
        }
        let (px, py) = pos[i];
        let (pw, ph) = dims[i];
        match &graph[i] {
            Block::Task(_) => {},
            Block::Sequence(cs) => {
                let ghost csv = cs@;
                proof {
                    if csv.len() > 0 {
                        lemma_seq_suffix_bounds_entry(tasks@, gv, i as int, 0);
                        lemma_dims_nonneg(tasks@, gv, csv[0] as int);
                    }
                }
                let mut y: u64 = py;
                let mut q: usize = 0;
                while q < cs.len()
                    invariant
                        q <= cs@.len(),
                        csv == cs@,
                        csv == kids(gv[i as int]),
                        gv[i as int] is Sequence,
                        n == graph@.len(),
                        gv == arena_view(graph@),
                        gv.len() == n,
                        tree_arena(gv),
                        tasks_resolved(tasks@, gv),
                        sequences_nonempty(gv),
                        dims@.len() == n,
                        forall|ii: int|
                            0 <= ii < n ==> ((#[trigger] dims@[ii]).0 as int, dims@[ii].1 as int)
                                == dims_of(tasks@, gv, ii),
                        (origin.0 as int) + dims_of(tasks@, gv, 0).0 <= u64::MAX,
                        (origin.1 as int) + dims_of(tasks@, gv, 0).1 <= u64::MAX,
                        pos@.len() == n,
                        pos@[0] == origin,
                        (i as int) < n,
                        (px, py) == pos@[i as int],
                        ((pw as int), (ph as int)) == dims_of(tasks@, gv, i as int),
                        origin.0 <= px && origin.1 <= py,
                        (px as int) + (pw as int) <= (origin.0 as int) + dims_of(tasks@, gv, 0).0,
                        (py as int) + (ph as int) <= (origin.1 as int) + dims_of(tasks@, gv, 0).1,
                        q < csv.len() ==> (y as int) == (py as int) + seq_off(
                            tasks@,
                            gv,
                            i as int,
                            csv,
                            q as int,
                        ),
                        q < csv.len() ==> (y as int) + dims_of(
                            tasks@,
                            gv,
                            csv[q as int] as int,
                        ).1 <= (py as int) + (ph as int),
                        forall|p: int, qq: int|
                            0 <= p < i && 0 <= qq < kids(#[trigger] gv[p]).len() ==> ((
                            #[trigger] pos@[kids(gv[p])[qq] as int]).0 as int, pos@[kids(
                                gv[p],
                            )[qq] as int].1 as int) == child_pos(tasks@, gv, pos@, p, qq),
                        forall|p: int, qq: int|
                            0 <= p < i && 0 <= qq < kids(#[trigger] gv[p]).len() ==> origin.0 <= (
                            #[trigger] pos@[kids(gv[p])[qq] as int]).0 && origin.1 <= pos@[kids(
                                gv[p],
                            )[qq] as int].1 && (pos@[kids(gv[p])[qq] as int].0 as int) + dims_of(
                                tasks@,
                                gv,
                                kids(gv[p])[qq] as int,
                            ).0 <= (origin.0 as int) + dims_of(tasks@, gv, 0).0 && (pos@[kids(
                                gv[p],
                            )[qq] as int].1 as int) + dims_of(
                                tasks@,
                                gv,
                                kids(gv[p])[qq] as int,
                            ).1 <= (origin.1 as int) + dims_of(tasks@, gv, 0).1,
                        forall|qq: int|
                            0 <= qq < q ==> ((#[trigger] pos@[csv[qq] as int]).0 as int, pos@[
                                csv[qq] as int].1 as int) == child_pos(
                                tasks@,
                                gv,
                                pos@,
                                i as int,
                                qq,
                            ),
                        forall|qq: int|
                            0 <= qq < q ==> origin.0 <= (#[trigger] pos@[csv[qq] as int]).0
                                && origin.1 <= pos@[csv[qq] as int].1 && (pos@[
                                csv[qq] as int].0 as int) + dims_of(tasks@, gv, csv[qq] as int).0
                                <= (origin.0 as int) + dims_of(tasks@, gv, 0).0 && (pos@[
                                csv[qq] as int].1 as int) + dims_of(tasks@, gv, csv[qq] as int).1
                                <= (origin.1 as int) + dims_of(tasks@, gv, 0).1,
                    decreases cs@.len() - q,
                {
                    let c = cs[q];
                    proof {
                        assert(i < (csv[q as int] as int) < n);
                        lemma_dims_nonneg(tasks@, gv, c as int);
                        lemma_seq_suffix_bounds_entry(tasks@, gv, i as int, q as int);
                        lemma_off_nonneg(tasks@, gv, i as int, csv, q as int);
                    }
                    let (cw, ch) = dims[c];
                    let xgap = (pw - cw) / 2;
                    let ghost pos_before = pos@;
                    pos.set(c, (px + xgap, y));
                    proof {
                        // the updated entry is this child's and no other claim
                        assert forall|p: int, qq: int|
                            0 <= p < i + 1 && 0 <= qq < kids(gv[p]).len() && !(p
                                == i as int && qq == q as int) implies #[trigger] kids(gv[p])[qq]
                            != c by {
                            if kids(gv[p])[qq] == c {
                                assert(parent_count(gv, c) == 1);
                                lemma_unique_parent(gv, p, qq, i as int, q as int);
                            }
                        }
                        assert(child_pos(tasks@, gv, pos@, i as int, q as int) == ((px + xgap) as int, y as int));
                        if (q as int) + 1 < csv.len() {
                            lemma_seq_suffix_bounds_entry(tasks@, gv, i as int, q as int + 1);
                            lemma_off_nonneg(tasks@, gv, i as int, csv, q as int + 1);
                            lemma_dims_nonneg(tasks@, gv, csv[q as int + 1] as int);
                        }
                    }
                    if q + 1 < cs.len() {
                        y = y + (ch + VERTICAL_GAP);
                    }
                    q += 1;
                }
            },
            Block::Parallel(cs) => {
                let ghost csv = cs@;
                let mut x: u64 = px;
                let mut q: usize = 0;
                while q < cs.len()
                    invariant
                        q <= cs@.len(),
                        csv == cs@,
                        csv == kids(gv[i as int]),
                        gv[i as int] is Parallel,
                        n == graph@.len(),
                        gv == arena_view(graph@),
                        gv.len() == n,
                        tree_arena(gv),
                        tasks_resolved(tasks@, gv),
                        sequences_nonempty(gv),
                        dims@.len() == n,
                        forall|ii: int|
                            0 <= ii < n ==> ((#[trigger] dims@[ii]).0 as int, dims@[ii].1 as int)
                                == dims_of(tasks@, gv, ii),
                        (origin.0 as int) + dims_of(tasks@, gv, 0).0 <= u64::MAX,
                        (origin.1 as int) + dims_of(tasks@, gv, 0).1 <= u64::MAX,
                        pos@.len() == n,
                        pos@[0] == origin,
                        (i as int) < n,
                        (px, py) == pos@[i as int],
                        ((pw as int), (ph as int)) == dims_of(tasks@, gv, i as int),
                        origin.0 <= px && origin.1 <= py,
                        (px as int) + (pw as int) <= (origin.0 as int) + dims_of(tasks@, gv, 0).0,
                        (py as int) + (ph as int) <= (origin.1 as int) + dims_of(tasks@, gv, 0).1,
                        (x as int) == (px as int) + par_off(tasks@, gv, i as int, csv, q as int),
                        (x as int) <= (px as int) + (pw as int),
                        forall|p: int, qq: int|
                            0 <= p < i && 0 <= qq < kids(#[trigger] gv[p]).len() ==> ((
                            #[trigger] pos@[kids(gv[p])[qq] as int]).0 as int, pos@[kids(
                                gv[p],
                            )[qq] as int].1 as int) == child_pos(tasks@, gv, pos@, p, qq),
                        forall|p: int, qq: int|
                            0 <= p < i && 0 <= qq < kids(#[trigger] gv[p]).len() ==> origin.0 <= (
                            #[trigger] pos@[kids(gv[p])[qq] as int]).0 && origin.1 <= pos@[kids(
                                gv[p],
                            )[qq] as int].1 && (pos@[kids(gv[p])[qq] as int].0 as int) + dims_of(
                                tasks@,
                                gv,
                                kids(gv[p])[qq] as int,
                            ).0 <= (origin.0 as int) + dims_of(tasks@, gv, 0).0 && (pos@[kids(
                                gv[p],
                            )[qq] as int].1 as int) + dims_of(
                                tasks@,
                                gv,
                                kids(gv[p])[qq] as int,
                            ).1 <= (origin.1 as int) + dims_of(tasks@, gv, 0).1,
                        forall|qq: int|
                            0 <= qq < q ==> ((#[trigger] pos@[csv[qq] as int]).0 as int, pos@[
                                csv[qq] as int].1 as int) == child_pos(
                                tasks@,
                                gv,
                                pos@,
                                i as int,
                                qq,
                            ),
                        forall|qq: int|
                            0 <= qq < q ==> origin.0 <= (#[trigger] pos@[csv[qq] as int]).0
                                && origin.1 <= pos@[csv[qq] as int].1 && (pos@[
                                csv[qq] as int].0 as int) + dims_of(tasks@, gv, csv[qq] as int).0
                                <= (origin.0 as int) + dims_of(tasks@, gv, 0).0 && (pos@[
                                csv[qq] as int].1 as int) + dims_of(tasks@, gv, csv[qq] as int).1
                                <= (origin.1 as int) + dims_of(tasks@, gv, 0).1,
                    decreases cs@.len() - q,
                {
                    let c = cs[q];
                    proof {
                        assert(i < (csv[q as int] as int) < n);
                        lemma_dims_nonneg(tasks@, gv, c as int);
                        lemma_seq_suffix_bounds_entry(tasks@, gv, i as int, q as int);
                        lemma_off_nonneg(tasks@, gv, i as int, csv, q as int);
                    }
                    let (cw, ch) = dims[c];
                    let ygap = (ph - ch) / 2;
                    pos.set(c, (x, py + ygap));
                    proof {
                        assert forall|p: int, qq: int|
                            0 <= p < i + 1 && 0 <= qq < kids(gv[p]).len() && !(p
                                == i as int && qq == q as int) implies #[trigger] kids(gv[p])[qq]
                            != c by {
                            if kids(gv[p])[qq] == c {
                                assert(parent_count(gv, c) == 1);
                                lemma_unique_parent(gv, p, qq, i as int, q as int);
                            }
                        }
                        assert(child_pos(tasks@, gv, pos@, i as int, q as int) == (x as int, (py
                            + ygap) as int));
                        if (q as int) + 1 < csv.len() {
                            lemma_seq_suffix_bounds_entry(tasks@, gv, i as int, q as int + 1);
                            lemma_off_nonneg(tasks@, gv, i as int, csv, q as int + 1);
                        }
                    }
                    x = x + cw;
                    q += 1;
                }
            },
        }
        i += 1;
    }
    proof {
        assert forall|b: int|
            0 <= b < graph@.len() implies origin.0 <= (#[trigger] pos@[b]).0 && origin.1
            <= pos@[b].1 && (pos@[b].0 as int) + dims_of(tasks@, gv, b).0 <= (origin.0 as int)
            + dims_of(tasks@, gv, 0).0 && (pos@[b].1 as int) + dims_of(tasks@, gv, b).1 <= (
        origin.1 as int) + dims_of(tasks@, gv, 0).1 by {
            if b > 0 {
                assert(parent_count(gv, b as usize) == 1);
                lemma_pc_witness(gv, b as usize);
                let (p, q) = choose|p: int, q: int|
                    0 <= p < gv.len() && 0 <= q < kids(gv[p]).len() && #[trigger] kids(gv[p])[q]
                        == b as usize;
            }
        }
    }
    pos
}


/// In a proper tree, the layout rules and the root's position determine
/// every block's position: two consistent assignments agree everywhere.
pub proof fn lemma_positions_agree_at(
    tasks: Seq<TaskLog>,
    g: Seq<BlockShape>,
    pos1: Seq<(u64, u64)>,
    pos2: Seq<(u64, u64)>,
    b: int,
)
    requires
        tree_arena(g),
        g.len() <= usize::MAX,
        pos1.len() == g.len(),
        pos2.len() == g.len(),
        positions_consistent(tasks, g, pos1),
        positions_consistent(tasks, g, pos2),
        pos1[0] == pos2[0],
        0 <= b < g.len(),
    ensures
        pos1[b] == pos2[b],
    decreases b,
{
    if b > 0 {
        assert(((b as usize) as int) == b);
        assert(parent_count(g, b as usize) == 1);
        lemma_pc_witness(g, b as usize);
        let (p, q) = choose|p: int, q: int|
            0 <= p < g.len() && 0 <= q < kids(g[p]).len() && #[trigger] kids(g[p])[q]
                == b as usize;
        assert(p < b);
        lemma_positions_agree_at(tasks, g, pos1, pos2, p);
        assert(child_pos(tasks, g, pos1, p, q) == child_pos(tasks, g, pos2, p, q));
    }
}

/// Layout determinism, whole-array form.
pub proof fn lemma_positions_unique(
    tasks: Seq<TaskLog>,
    g: Seq<BlockShape>,
    pos1: Seq<(u64, u64)>,
    pos2: Seq<(u64, u64)>,
)
    requires
        tree_arena(g),
        g.len() <= usize::MAX,
        pos1.len() == g.len(),
        pos2.len() == g.len(),
        positions_consistent(tasks, g, pos1),
        positions_consistent(tasks, g, pos2),
        pos1[0] == pos2[0],
    ensures
        pos1 == pos2,
{
    assert forall|b: int| 0 <= b < g.len() implies pos1[b] == pos2[b] by {
        lemma_positions_agree_at(tasks, g, pos1, pos2, b);
    }
    assert(pos1 =~= pos2);
}

} // verus!
