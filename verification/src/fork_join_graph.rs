//! Reconstruction of the fork-join block tree from a run's task records.
//!
//! The records of one run are replayed in start-time order.  Each task is
//! appended, as a task block, to the sequence block it was claimed for;
//! a task with several children opens a parallel block with one fresh
//! sequence per branch; a task whose single child is already claimed by
//! another branch is a join, and the child is re-routed to the sequence
//! that spawned the fork.  The replay is mirrored, step for step, by a
//! specification machine ([`build_step`], [`build_prefix`]), and
//! [`create_graph`] returns exactly what the machine computes.

use vstd::prelude::*;
use vstd::relations::{sorted_by, total_ordering};
use vstd::seq_lib::group_to_multiset_ensures;
use vstd::seq_lib::lemma_sorted_unique;
use vstd::multiset::Multiset;
use vstd::pervasive::VecAdditionalExecFns;
use crate::trace::{TaskId, TaskLog, TraceError};

verus! {

broadcast use vstd::seq_lib::group_to_multiset_ensures;

/// Index of a block in the arena of one run.
pub type BlockId = usize;

/// A structural unit of the reconstructed layout tree.
///
/// The arena (a growable vector) owns all blocks of one run; block 0 is
/// always the root `Sequence`.  A task block holds the task's identifier —
/// the index of its record in the run — since a task's identity is
/// positional and the run's records stay available beside the arena.
pub enum Block {
    /// A leaf: one executed task.
    Task(TaskId),
    /// Children executed one after another, stacked along the height axis.
    Sequence(Vec<BlockId>),
    /// Children executed concurrently, laid out side by side.
    Parallel(Vec<BlockId>),
}

/// The mathematical shape of a block: what the contracts speak about.
pub enum BlockShape {
    /// A leaf: one executed task.
    Task(TaskId),
    /// Children executed one after another.
    Sequence(Seq<BlockId>),
    /// Children executed concurrently.
    Parallel(Seq<BlockId>),
}

impl View for Block {
    type V = BlockShape;

    open spec fn view(&self) -> BlockShape {
        match self {
            Block::Task(t) => BlockShape::Task(*t),
            Block::Sequence(s) => BlockShape::Sequence(s@),
            Block::Parallel(s) => BlockShape::Parallel(s@),
        }
    }
}

/// The shape of a whole arena.
pub open spec fn arena_view(g: Seq<Block>) -> Seq<BlockShape>
    decreases g.len(),
{
    if g.len() == 0 {
        Seq::empty()
    } else {
        arena_view(g.drop_last()).push(g.last()@)
    }
}

pub proof fn lemma_arena_view_len(g: Seq<Block>)
    ensures
        arena_view(g).len() == g.len(),
    decreases g.len(),
{
    if g.len() > 0 {
        lemma_arena_view_len(g.drop_last());
    }
}

pub proof fn lemma_arena_view_index(g: Seq<Block>, i: int)
    requires
        0 <= i < g.len(),
    ensures
        arena_view(g).len() == g.len(),
        arena_view(g)[i] == g[i]@,
    decreases g.len(),
{
    lemma_arena_view_len(g);
    if i < g.len() - 1 {
        lemma_arena_view_index(g.drop_last(), i);
    }
}

pub proof fn lemma_arena_view_push(g: Seq<Block>, b: Block)
    ensures
        arena_view(g.push(b)) == arena_view(g).push(b@),
{
    assert(g.push(b).drop_last() =~= g);
    assert(g.push(b).last() == b);
}

pub proof fn lemma_arena_view_update(g: Seq<Block>, i: int, b: Block)
    requires
        0 <= i < g.len(),
    ensures
        arena_view(g.update(i, b)) == arena_view(g).update(i, b@),
    decreases g.len(),
{
    lemma_arena_view_len(g);
    lemma_arena_view_len(g.update(i, b));
    if i == g.len() - 1 {
        assert(g.update(i, b).drop_last() =~= g.drop_last());
        assert(g.update(i, b).last() == b);
        assert(arena_view(g).update(i, b@) =~= arena_view(g.drop_last()).push(b@)) by {
            lemma_arena_view_len(g.drop_last());
        }
    } else {
        assert(g.update(i, b).drop_last() =~= g.drop_last().update(i, b));
        assert(g.update(i, b).last() == g.last());
        lemma_arena_view_update(g.drop_last(), i, b);
        assert(arena_view(g).update(i, b@) =~= arena_view(g.drop_last()).update(i, b@).push(
            g.last()@,
        )) by {
            lemma_arena_view_len(g.drop_last());
        }
    }
}

/// The child list of a block; a task block has none.
pub open spec fn kids(b: BlockShape) -> Seq<BlockId> {
    match b {
        BlockShape::Task(_) => Seq::empty(),
        BlockShape::Sequence(s) => s,
        BlockShape::Parallel(s) => s,
    }
}

/// How often `c` occurs in a child list.
pub open spec fn occ(s: Seq<BlockId>, c: BlockId) -> nat
    decreases s.len(),
{
    if s.len() == 0 {
        0
    } else {
        occ(s.drop_last(), c) + if s.last() == c {
            1nat
        } else {
            0nat
        }
    }
}

pub proof fn lemma_occ_push(s: Seq<BlockId>, x: BlockId, c: BlockId)
    ensures
        occ(s.push(x), c) == occ(s, c) + if x == c {
            1nat
        } else {
            0nat
        },
{
    assert(s.push(x).drop_last() =~= s);
}

pub proof fn lemma_occ_zero(s: Seq<BlockId>, c: BlockId)
    requires
        forall|j: int| 0 <= j < s.len() ==> s[j] != c,
    ensures
        occ(s, c) == 0,
    decreases s.len(),
{
    if s.len() > 0 {
        lemma_occ_zero(s.drop_last(), c);
    }
}

/// In how many child lists of the arena `c` occurs, occurrences counted.
pub open spec fn parent_count(g: Seq<BlockShape>, c: BlockId) -> nat
    decreases g.len(),
{
    if g.len() == 0 {
        0
    } else {
        parent_count(g.drop_last(), c) + occ(kids(g.last()), c)
    }
}

pub proof fn lemma_pc_push(g: Seq<BlockShape>, b: BlockShape, c: BlockId)
    ensures
        parent_count(g.push(b), c) == parent_count(g, c) + occ(kids(b), c),
{
    assert(g.push(b).drop_last() =~= g);
}

pub proof fn lemma_pc_update(g: Seq<BlockShape>, i: int, b: BlockShape, c: BlockId)
    requires
        0 <= i < g.len(),
    ensures
        parent_count(g.update(i, b), c) + occ(kids(g[i]), c) == parent_count(g, c) + occ(
            kids(b),
            c,
        ),
    decreases g.len(),
{
    if i == g.len() - 1 {
        assert(g.update(i, b).drop_last() =~= g.drop_last());
        assert(g.update(i, b).last() == b);
    } else {
        assert(g.update(i, b).drop_last() =~= g.drop_last().update(i, b));
        assert(g.update(i, b).last() == g.last());
        lemma_pc_update(g.drop_last(), i, b, c);
    }
}

/// A fresh identifier — one no child list can mention — has no parent.
pub proof fn lemma_pc_zero_fresh(g: Seq<BlockShape>, c: BlockId)
    requires
        forall|i: int, j: int|
            0 <= i < g.len() && 0 <= j < kids(#[trigger] g[i]).len() ==> #[trigger] kids(g[i])[j]
                != c,
    ensures
        parent_count(g, c) == 0,
    decreases g.len(),
{
    if g.len() > 0 {
        assert(g.last() == g[g.len() - 1]);
        lemma_occ_zero(kids(g.last()), c);
        assert(forall|i: int, j: int|
            0 <= i < g.drop_last().len() && 0 <= j < kids(#[trigger] g.drop_last()[i]).len()
                ==> #[trigger] kids(g.drop_last()[i])[j] != c) by {
            assert(forall|i: int| 0 <= i < g.len() - 1 ==> g.drop_last()[i] == g[i]);
        }
        lemma_pc_zero_fresh(g.drop_last(), c);
    }
}

/// `b` with one more child appended; a task block is left unchanged.
pub open spec fn with_kid(b: BlockShape, c: BlockId) -> BlockShape {
    match b {
        BlockShape::Task(t) => BlockShape::Task(t),
        BlockShape::Sequence(s) => BlockShape::Sequence(s.push(c)),
        BlockShape::Parallel(s) => BlockShape::Parallel(s.push(c)),
    }
}

/// The arena with `c` appended to the child list of block `p`.
pub open spec fn append_kid(g: Seq<BlockShape>, p: BlockId, c: BlockId) -> Seq<BlockShape> {
    g.update(p as int, with_kid(g[p as int], c))
}

pub proof fn lemma_pc_append(g: Seq<BlockShape>, p: BlockId, c: BlockId, d: BlockId)
    requires
        0 <= (p as int) < g.len(),
        !(g[p as int] is Task),
    ensures
        parent_count(append_kid(g, p, c), d) == parent_count(g, d) + if c == d {
            1nat
        } else {
            0nat
        },
{
    lemma_pc_update(g, p as int, with_kid(g[p as int], c), d);
    lemma_occ_push(kids(g[p as int]), c, d);
    assert(kids(with_kid(g[p as int], c)) == kids(g[p as int]).push(c));
}

/// Every child identifier lies strictly between its parent's and the
/// arena's length: children are created after their parents.
pub open spec fn wf_arena(g: Seq<BlockShape>) -> bool {
    forall|i: int, j: int|
        0 <= i < g.len() && 0 <= j < kids(#[trigger] g[i]).len() ==> i < #[trigger] kids(g[i])[j]
            && (kids(g[i])[j] as int) < g.len()
}

/// A proper tree: block 0 is the root sequence and is nobody's child, and
/// every other block is the child of exactly one block.  Parents precede
/// children, so every block is reachable from the root, exactly once.
pub open spec fn tree_arena(g: Seq<BlockShape>) -> bool {
    &&& 1 <= g.len()
    &&& g[0] is Sequence
    &&& wf_arena(g)
    &&& parent_count(g, 0) == 0
    &&& forall|c: BlockId| 1 <= c < g.len() ==> #[trigger] parent_count(g, c) == 1
}

/// The identifiers held by the arena's task blocks, in arena order.
pub open spec fn task_ids(g: Seq<BlockShape>) -> Seq<TaskId>
    decreases g.len(),
{
    if g.len() == 0 {
        Seq::empty()
    } else {
        match g.last() {
            BlockShape::Task(t) => task_ids(g.drop_last()).push(t),
            _ => task_ids(g.drop_last()),
        }
    }
}

pub proof fn lemma_task_ids_push_task(g: Seq<BlockShape>, t: TaskId)
    ensures
        task_ids(g.push(BlockShape::Task(t))) == task_ids(g).push(t),
{
    assert(g.push(BlockShape::Task(t)).drop_last() =~= g);
}

pub proof fn lemma_task_ids_push_other(g: Seq<BlockShape>, b: BlockShape)
    requires
        !(b is Task),
    ensures
        task_ids(g.push(b)) == task_ids(g),
{
    assert(g.push(b).drop_last() =~= g);
}

pub proof fn lemma_task_ids_update(g: Seq<BlockShape>, i: int, b: BlockShape)
    requires
        0 <= i < g.len(),
        !(g[i] is Task),
        !(b is Task),
    ensures
        task_ids(g.update(i, b)) == task_ids(g),
    decreases g.len(),
{
    if i == g.len() - 1 {
        assert(g.update(i, b).drop_last() =~= g.drop_last());
        assert(g.update(i, b).last() == b);
    } else {
        assert(g.update(i, b).drop_last() =~= g.drop_last().update(i, b));
        assert(g.update(i, b).last() == g.last());
        lemma_task_ids_update(g.drop_last(), i, b);
    }
}

/// State of the reconstruction machine: the arena built so far, the
/// sequence each created branch must return to at a join (`fathers`), and
/// for each task the sequence it is claimed for (`current`).
pub struct BuildState {
    /// Shapes of the blocks built so far.
    pub graph: Seq<BlockShape>,
    /// For each block, the sequence that spawned it as a fork branch.
    pub fathers: Seq<Option<BlockId>>,
    /// For each task, the sequence block it will be appended to.
    pub current: Seq<Option<BlockId>>,
}

/// A registered target: a sequence block of the arena.
pub open spec fn seq_target(g: Seq<BlockShape>, o: Option<BlockId>) -> bool {
    match o {
        Option::None => true,
        Option::Some(b) => (b as int) < g.len() && g[b as int] is Sequence,
    }
}

/// Invariant of the reconstruction machine over a run of `n` tasks.
pub open spec fn wf_state(s: BuildState, n: nat) -> bool {
    &&& 1 <= s.graph.len()
    &&& s.graph[0] is Sequence
    &&& wf_arena(s.graph)
    &&& s.fathers.len() == s.graph.len()
    &&& s.current.len() == n
    &&& parent_count(s.graph, 0) == 0
    &&& forall|c: BlockId| 1 <= c < s.graph.len() ==> #[trigger] parent_count(s.graph, c) == 1
    &&& forall|t: int| 0 <= t < n ==> seq_target(s.graph, #[trigger] s.current[t])
    &&& forall|i: int| 0 <= i < s.fathers.len() ==> seq_target(s.graph, #[trigger] s.fathers[i])
}

/// The machine's start state: one empty root sequence, task 0 claimed for it.
pub open spec fn init_state(n: nat) -> BuildState {
    BuildState {
        graph: seq![BlockShape::Sequence(Seq::empty())],
        fathers: seq![Option::None],
        current: Seq::new(n, |i: int| if i == 0 { Option::Some(0usize) } else { Option::None }),
    }
}

/// Registers the branches of a fork: one fresh sequence per child, each
/// appended to the parallel block `pb`; a child already claimed elsewhere
/// is a log inconsistency.
pub open spec fn fanout_step(
    s: BuildState,
    pb: BlockId,
    cur: BlockId,
    children: Seq<TaskId>,
    j: int,
) -> Result<BuildState, TraceError>
    decreases children.len() - j,
{
    if j < 0 || j >= children.len() {
        Ok(s)
    } else {
        let child = children[j];
        if s.current[child as int] is Some {
            Err(TraceError::ForkConflict)
        } else {
            let sb = s.graph.len() as usize;
            let s1 = BuildState {
                graph: append_kid(s.graph.push(BlockShape::Sequence(Seq::empty())), pb, sb),
                fathers: s.fathers.push(Option::Some(cur)),
                current: s.current.update(child as int, Option::Some(sb)),
            };
            fanout_step(s1, pb, cur, children, j + 1)
        }
    }
}

/// One step of the reconstruction machine: replays one task.
pub open spec fn build_step(tasks: Seq<TaskLog>, s: BuildState, t: TaskId) -> Result<
    BuildState,
    TraceError,
> {
    match s.current[t as int] {
        Option::None => Err(TraceError::TaskNotClaimed),
        Option::Some(cur) => {
            let nt = s.graph.len() as usize;
            let s1 = BuildState {
                graph: append_kid(s.graph.push(BlockShape::Task(t)), cur, nt),
                fathers: s.fathers.push(Option::None),
                current: s.current,
            };
            let children = tasks[t as int].children@;
            if children.len() == 1 {
                let child = children[0];
                if s1.current[child as int] is Some {
                    match s1.fathers[cur as int] {
                        Option::None => Err(TraceError::JoinWithoutFork),
                        Option::Some(f) => Ok(
                            BuildState {
                                graph: s1.graph,
                                fathers: s1.fathers,
                                current: s1.current.update(child as int, Option::Some(f)),
                            },
                        ),
                    }
                } else {
                    Ok(
                        BuildState {
                            graph: s1.graph,
                            fathers: s1.fathers,
                            current: s1.current.update(child as int, Option::Some(cur)),
                        },
                    )
                }
            } else if children.len() >= 2 {
                let pb = s1.graph.len() as usize;
                let s2 = BuildState {
                    graph: append_kid(s1.graph.push(BlockShape::Parallel(Seq::empty())), cur, pb),
                    fathers: s1.fathers.push(Option::None),
                    current: s1.current,
                };
                fanout_step(s2, pb, cur, children, 0)
            } else {
                Ok(s1)
            }
        },
    }
}

/// The machine after replaying the first `k` tasks of `order`.
pub open spec fn build_prefix(tasks: Seq<TaskLog>, order: Seq<TaskId>, k: int) -> Result<
    BuildState,
    TraceError,
>
    decreases k,
{
    if k <= 0 {
        Ok(init_state(tasks.len()))
    } else {
        match build_prefix(tasks, order, k - 1) {
            Ok(s) => build_step(tasks, s, order[k - 1]),
            Err(e) => Err(e),
        }
    }
}

pub proof fn lemma_prefix_err(tasks: Seq<TaskLog>, order: Seq<TaskId>, k: int, m: int)
    requires
        0 <= k <= m,
        build_prefix(tasks, order, k) is Err,
    ensures
        build_prefix(tasks, order, m) == build_prefix(tasks, order, k),
    decreases m - k,
{
    if m > k {
        lemma_prefix_err(tasks, order, k, m - 1);
    }
}

/// Tasks ordered by start time, ties by identifier: a total order, and the
/// order in which the machine replays a run.
pub open spec fn starts_before(tasks: Seq<TaskLog>, a: TaskId, b: TaskId) -> bool {
    tasks[a as int].start_time < tasks[b as int].start_time || (tasks[a as int].start_time
        == tasks[b as int].start_time && a <= b)
}

/// The replay order as a relation.
pub open spec fn id_order(tasks: Seq<TaskLog>) -> spec_fn(TaskId, TaskId) -> bool {
    |a: TaskId, b: TaskId| starts_before(tasks, a, b)
}

/// The identifiers `0 .. n`, in identifier order.
pub open spec fn identity_ids(n: nat) -> Seq<TaskId> {
    Seq::new(n, |i: int| i as usize)
}

/// All task identifiers of a run, sorted by start time, ties by identifier.
pub open spec fn sorted_ids(tasks: Seq<TaskLog>) -> Seq<TaskId> {
    identity_ids(tasks.len()).sort_by(id_order(tasks))
}

/// The whole reconstruction of one run, as the machine computes it.
pub open spec fn build_run(tasks: Seq<TaskLog>) -> Result<BuildState, TraceError> {
    build_prefix(tasks, sorted_ids(tasks), tasks.len() as int)
}

pub proof fn lemma_id_order_total(tasks: Seq<TaskLog>)
    ensures
        total_ordering(id_order(tasks)),
{
    let r = id_order(tasks);
    assert forall|a: TaskId| #[trigger] r(a, a) by {
        assert(starts_before(tasks, a, a));
    }
    assert forall|a: TaskId, b: TaskId, c: TaskId| #[trigger] r(a, b) && #[trigger] r(b, c)
        implies r(a, c) by {
        assert(starts_before(tasks, a, b) && starts_before(tasks, b, c));
        assert(starts_before(tasks, a, c));
    }
    assert forall|a: TaskId, b: TaskId| #[trigger] r(a, b) && #[trigger] r(b, a) implies a == b by {
        assert(starts_before(tasks, a, b) && starts_before(tasks, b, a));
    }
    assert forall|a: TaskId, b: TaskId| #[trigger] r(a, b) || #[trigger] r(b, a) by {
        assert(starts_before(tasks, a, b) || starts_before(tasks, b, a));
    }
}

/// Compares two tasks in replay order.
fn starts_before_exec(tasks: &Vec<TaskLog>, a: TaskId, b: TaskId) -> (r: bool)
    requires
        (a as int) < tasks@.len(),
        (b as int) < tasks@.len(),
    ensures
        r == starts_before(tasks@, a, b),
{
    let sa = tasks[a].start_time;
    let sb = tasks[b].start_time;
    sa < sb || (sa == sb && a <= b)
}

/// Sorts the identifiers of all tasks by start time, ties by identifier.
fn sort_task_ids(tasks: &Vec<TaskLog>) -> (ids: Vec<TaskId>)
    ensures
        ids@ == sorted_ids(tasks@),
        ids@.len() == tasks@.len(),
        forall|k: int| 0 <= k < ids@.len() ==> (#[trigger] ids@[k] as int) < tasks@.len(),
{
    let n = tasks.len();
    let ghost leq = id_order(tasks@);
    proof {
        lemma_id_order_total(tasks@);
    }
    let mut rest: Vec<usize> = Vec::new();
    let mut i: usize = 0;
    while i < n
        invariant
            i <= n,
            rest@ == identity_ids(i as nat),
        decreases n - i,
    {
        rest.push(i);
        i += 1;
        proof {
            assert(rest@ =~= identity_ids(i as nat));
        }
    }
    let mut out: Vec<usize> = Vec::new();
    while rest.len() > 0
        invariant
            n == tasks@.len(),
            leq == id_order(tasks@),
            total_ordering(leq),
            out@.to_multiset().add(rest@.to_multiset()) == identity_ids(n as nat).to_multiset(),
            sorted_by(out@, leq),
            forall|a: int, b: int|
                0 <= a < out@.len() && 0 <= b < rest@.len() ==> leq(out@[a], rest@[b]),
            forall|a: int| 0 <= a < out@.len() ==> (#[trigger] out@[a] as int) < n,
            forall|b: int| 0 <= b < rest@.len() ==> (#[trigger] rest@[b] as int) < n,
        decreases rest@.len(),
    {
        let mut m: usize = 0;
        let mut j: usize = 1;
        while j < rest.len()
            invariant
                leq == id_order(tasks@),
                total_ordering(leq),
                n == tasks@.len(),
                forall|b: int| 0 <= b < rest@.len() ==> (#[trigger] rest@[b] as int) < n,
                (m as int) < rest@.len(),
                1 <= j <= rest@.len(),
                forall|k: int| 0 <= k < j ==> leq(rest@[m as int], #[trigger] rest@[k]),
            decreases rest@.len() - j,
        {
            if !starts_before_exec(tasks, rest[m], rest[j]) {
                proof {
                    let old_m = m as int;
                    assert(leq(rest@[j as int], rest@[old_m]));
                    assert forall|k: int| 0 <= k < j + 1 implies leq(
                        rest@[j as int],
                        #[trigger] rest@[k],
                    ) by {
                        if k < j {
                            assert(leq(rest@[old_m], rest@[k]));
                        }
                    }
                }
                m = j;
            }
            j += 1;
        }
        let x = rest[m];
        let ghost old_rest = rest@;
        let ghost old_out = out@;
        let _ = rest.remove(m);
        out.push(x);
        proof {
            assert(old_rest.remove(m as int).to_multiset() =~= old_rest.to_multiset().remove(x));
            assert(out@.to_multiset() =~= old_out.to_multiset().insert(x));
            assert(out@.to_multiset().add(rest@.to_multiset()) =~= old_out.to_multiset().add(
                old_rest.to_multiset(),
            ));
            assert forall|a: int, b: int|
                0 <= a < out@.len() && 0 <= b < rest@.len() implies leq(out@[a], rest@[b]) by {
                assert(rest@[b] == if b < m as int {
                    old_rest[b]
                } else {
                    old_rest[b + 1]
                });
                if a < old_out.len() {
                    assert(leq(old_out[a], rest@[b]));
                } else {
                    assert(out@[a] == x);
                    assert(leq(old_rest[m as int], rest@[b]));
                }
            }
            assert(sorted_by(out@, leq)) by {
                assert forall|p: int, q: int| 0 <= p < q < out@.len() implies leq(
                    out@[p],
                    out@[q],
                ) by {
                    if q < old_out.len() {
                        assert(leq(old_out[p], old_out[q]));
                    } else {
                        assert(out@[q] == x);
                        assert(leq(old_out[p], old_rest[m as int]));
                    }
                }
            }
        }
    }
    proof {
        assert(rest@.to_multiset() =~= Multiset::empty()) by {
            assert(rest@ =~= Seq::<usize>::empty());
        }
        assert(out@.to_multiset() == identity_ids(n as nat).to_multiset());
        identity_ids(n as nat).lemma_sort_by_ensures(leq);
        lemma_sorted_unique(out@, sorted_ids(tasks@), leq);
        assert(out@ == sorted_ids(tasks@));
        assert(out@.len() == out@.to_multiset().len());
        assert(identity_ids(n as nat).len() == identity_ids(n as nat).to_multiset().len());
    }
    out
}


/// Copies a child list with one more child appended.
fn copy_push(v: &Vec<BlockId>, c: BlockId) -> (r: Vec<BlockId>)
    ensures
        r@ == v@.push(c),
{
    let mut r: Vec<BlockId> = Vec::new();
    let mut i: usize = 0;
    while i < v.len()
        invariant
            i <= v@.len(),
            r@ == v@.subrange(0, i as int),
        decreases v@.len() - i,
    {
        r.push(v[i]);
        i += 1;
        proof {
            assert(r@ =~= v@.subrange(0, i as int));
        }
    }
    r.push(c);
    proof {
        assert(v@.subrange(0, v@.len() as int) =~= v@);
        assert(r@ =~= v@.push(c));
    }
    r
}

/// Appends child `c` to the child list of block `p`.
fn append_child(g: &mut Vec<Block>, p: BlockId, c: BlockId)
    requires
        (p as int) < old(g)@.len(),
        !(arena_view(old(g)@)[p as int] is Task),
    ensures
        final(g)@.len() == old(g)@.len(),
        arena_view(final(g)@) == append_kid(arena_view(old(g)@), p, c),
{
    proof {
        lemma_arena_view_index(g@, p as int);
    }
    let nb = match &g[p] {
        Block::Sequence(s) => Block::Sequence(copy_push(s, c)),
        Block::Parallel(s) => Block::Parallel(copy_push(s, c)),
        Block::Task(_) => {
            proof {
                assert(false);
            }
            Block::Task(0)
        },
    };
    g.set(p, nb);
    proof {
        lemma_arena_view_update(old(g)@, p as int, nb);
        assert(nb@ == with_kid(arena_view(old(g)@)[p as int], c));
    }
}

/// The machine state made of an arena, its fathers and the claim table.
pub open spec fn exec_state(
    g: Seq<Block>,
    f: Seq<Option<BlockId>>,
    c: Seq<Option<BlockId>>,
) -> BuildState {
    BuildState { graph: arena_view(g), fathers: f, current: c }
}

/// Rebuilds the fork-join block tree of one run.
///
/// The result is exactly what the reconstruction machine computes on the
/// run's tasks in replay order; on success the arena is a proper tree
/// whose task blocks hold each task identifier exactly once, in replay
/// order.
#[verifier::rlimit(60)]
pub fn create_graph(tasks: &Vec<TaskLog>) -> (res: Result<Vec<Block>, TraceError>)
    requires
        1 <= tasks@.len(),
        forall|i: int, j: int|
            0 <= i < tasks@.len() && 0 <= j < tasks@[i].children@.len() ==> (
            #[trigger] tasks@[i].children@[j] as int) < tasks@.len(),
    ensures
        res is Ok <==> build_run(tasks@) is Ok,
        res is Ok ==> arena_view(res->Ok_0@) == build_run(tasks@)->Ok_0.graph,
        res is Ok ==> tree_arena(arena_view(res->Ok_0@)),
        res is Ok ==> task_ids(arena_view(res->Ok_0@)) == sorted_ids(tasks@),
        res is Err ==> build_run(tasks@) == Err::<BuildState, TraceError>(res->Err_0),
{
    let n = tasks.len();
    let ids = sort_task_ids(tasks);
    let mut graph: Vec<Block> = Vec::new();
    graph.push(Block::Sequence(Vec::new()));
    let mut fathers: Vec<Option<BlockId>> = Vec::new();
    fathers.push(None);
    let mut current: Vec<Option<BlockId>> = Vec::new();
    let mut i0: usize = 0;
    while i0 < n
        invariant
            i0 <= n,
            current@.len() == i0,
            forall|t: int| 0 <= t < i0 ==> current@[t] is None,
        decreases n - i0,
    {
        current.push(None);
        i0 += 1;
    }
    current.set(0, Some(0));
    proof {
        assert(current@ =~= init_state(n as nat).current);
        assert(graph@.drop_last() =~= Seq::<Block>::empty());
        assert(arena_view(Seq::<Block>::empty()) == Seq::<BlockShape>::empty());
        assert(arena_view(graph@) =~= init_state(n as nat).graph);
        assert(fathers@ =~= init_state(n as nat).fathers);
        assert(build_prefix(tasks@, ids@, 0) == Ok::<BuildState, TraceError>(
            exec_state(graph@, fathers@, current@),
        ));
        assert(wf_state(exec_state(graph@, fathers@, current@), n as nat)) by {
            let s0 = exec_state(graph@, fathers@, current@);
            assert(s0.graph.len() == 1);
            assert(s0.graph[0] is Sequence);
            assert(kids(s0.graph[0]).len() == 0);
            assert forall|c: BlockId| #[trigger] parent_count(s0.graph, c) == 0 by {
                assert(s0.graph.drop_last() =~= Seq::<BlockShape>::empty());
                assert(parent_count(Seq::<BlockShape>::empty(), c) == 0);
                assert(occ(kids(s0.graph.last()), c) == 0);
            }
        }
        assert(task_ids(arena_view(graph@)) =~= ids@.take(0)) by {
            assert(arena_view(graph@).drop_last() =~= Seq::<BlockShape>::empty());
            assert(task_ids(Seq::<BlockShape>::empty()) == Seq::<TaskId>::empty());
            assert(arena_view(graph@).last() == graph@.last()@);
            assert(!(arena_view(graph@).last() is Task));
        }
    }
    let mut k: usize = 0;
    while k < n
        invariant
            k <= n,
            n == tasks@.len(),
            1 <= n,
            forall|i: int, j: int|
                0 <= i < tasks@.len() && 0 <= j < tasks@[i].children@.len() ==> (
                #[trigger] tasks@[i].children@[j] as int) < tasks@.len(),
            ids@ == sorted_ids(tasks@),
            ids@.len() == n,
            forall|q: int| 0 <= q < ids@.len() ==> (#[trigger] ids@[q] as int) < n,
            fathers@.len() == graph@.len(),
            current@.len() == n,
            build_prefix(tasks@, ids@, k as int) == Ok::<BuildState, TraceError>(
                exec_state(graph@, fathers@, current@),
            ),
            wf_state(exec_state(graph@, fathers@, current@), n as nat),
            task_ids(arena_view(graph@)) == ids@.take(k as int),
        decreases n - k,
    {
        let ghost sk = exec_state(graph@, fathers@, current@);
        proof {
            lemma_arena_view_len(graph@);
        }
        let t = ids[k];
        let cur_opt = current[t];
        if cur_opt.is_none() {
            proof {
                assert(build_step(tasks@, sk, t) == Err::<BuildState, TraceError>(
                    TraceError::TaskNotClaimed,
                ));
                assert(build_prefix(tasks@, ids@, k + 1) == Err::<BuildState, TraceError>(
                    TraceError::TaskNotClaimed,
                ));
                lemma_prefix_err(tasks@, ids@, k + 1, n as int);
            }
            return Err(TraceError::TaskNotClaimed);
        }
        let cur = cur_opt.unwrap();
        proof {
            assert(seq_target(sk.graph, sk.current[t as int]));
        }
        let nt = graph.len();
        let ghost gv0 = graph@;
        graph.push(Block::Task(t));
        fathers.push(None);
        proof {
            lemma_arena_view_push(gv0, Block::Task(t));
            lemma_arena_view_len(graph@);
        }
        append_child(&mut graph, cur, nt);
        let ghost s1 = BuildState {
            graph: append_kid(sk.graph.push(BlockShape::Task(t)), cur, nt),
            fathers: sk.fathers.push(None),
            current: sk.current,
        };
        proof {
            assert(exec_state(graph@, fathers@, current@) == s1);
            lemma_arena_view_len(graph@);
            // the new task block has exactly one parent, nothing else changed
            assert forall|d: BlockId| true implies #[trigger] parent_count(s1.graph, d) == if d
                == nt {
                1nat
            } else {
                parent_count(sk.graph, d)
            } by {
                let g1 = sk.graph.push(BlockShape::Task(t));
                lemma_pc_push(sk.graph, BlockShape::Task(t), d);
                if d == nt {
                    lemma_pc_zero_fresh(sk.graph, d);
                }
                lemma_pc_append(g1, cur, nt, d);
            }
            assert(wf_arena(s1.graph)) by {
                let g1 = sk.graph.push(BlockShape::Task(t));
                assert forall|i: int, j: int|
                    0 <= i < s1.graph.len() && 0 <= j < kids(#[trigger] s1.graph[i]).len()
                    implies i < #[trigger] kids(s1.graph[i])[j] && (kids(s1.graph[i])[j] as int)
                    < s1.graph.len() by {
                    if i == cur as int {
                        assert(s1.graph[i] == with_kid(sk.graph[cur as int], nt));
                        if j < kids(s1.graph[i]).len() - 1 {
                            assert(kids(s1.graph[i])[j] == kids(sk.graph[cur as int])[j]);
                        } else {
                            assert(kids(s1.graph[i])[j] == nt);
                        }
                    } else if i < sk.graph.len() {
                        assert(s1.graph[i] == sk.graph[i]);
                    } else {
                        assert(s1.graph[i] == BlockShape::Task(t));
                    }
                }
            }
            assert(wf_state(s1, n as nat)) by {
                if cur == 0 {
                    assert(s1.graph[0] == with_kid(sk.graph[0], nt));
                } else {
                    assert(s1.graph[0] == sk.graph[0]);
                }
                assert(s1.graph[0] is Sequence);
                assert forall|tt: int| 0 <= tt < n implies seq_target(
                    s1.graph,
                    #[trigger] s1.current[tt],
                ) by {
                    assert(seq_target(sk.graph, sk.current[tt]));
                }
                assert forall|i: int| 0 <= i < s1.fathers.len() implies seq_target(
                    s1.graph,
                    #[trigger] s1.fathers[i],
                ) by {
                    if i < sk.fathers.len() {
                        assert(seq_target(sk.graph, sk.fathers[i]));
                    }
                }
            }
            assert(task_ids(s1.graph) == ids@.take(k + 1)) by {
                lemma_task_ids_push_task(sk.graph, t);
                lemma_task_ids_update(
                    sk.graph.push(BlockShape::Task(t)),
                    cur as int,
                    with_kid(sk.graph[cur as int], nt),
                );
                assert(ids@.take(k as int).push(t) =~= ids@.take(k + 1));
            }
        }
        let clen = tasks[t].children.len();
        if clen == 1 {
            let child = tasks[t].children[0];
            proof {
                assert((tasks@[t as int].children@[0] as int) < n);
            }
            let child_claimed = current[child].is_some();
            if child_claimed {
                let father = fathers[cur];
                if father.is_none() {
                    proof {
                        assert(s1.fathers[cur as int] == sk.fathers[cur as int]);
                        assert(build_step(tasks@, sk, t) == Err::<BuildState, TraceError>(
                            TraceError::JoinWithoutFork,
                        ));
                        assert(build_prefix(tasks@, ids@, k + 1) == Err::<
                            BuildState,
                            TraceError,
                        >(TraceError::JoinWithoutFork));
                        lemma_prefix_err(tasks@, ids@, k + 1, n as int);
                    }
                    return Err(TraceError::JoinWithoutFork);
                }
                let f = father.unwrap();
                current.set(child, Some(f));
                proof {
                    assert(s1.fathers[cur as int] == sk.fathers[cur as int]);
                    assert(build_step(tasks@, sk, t) == Ok::<BuildState, TraceError>(
                        exec_state(graph@, fathers@, current@),
                    ));
                    assert(seq_target(sk.graph, sk.fathers[cur as int]));
                    assert(wf_state(exec_state(graph@, fathers@, current@), n as nat)) by {
                        assert forall|tt: int| 0 <= tt < n implies seq_target(
                            s1.graph,
                            #[trigger] current@[tt],
                        ) by {
                            if tt == child as int {
                                if f == cur {
                                    assert(s1.graph[f as int] == with_kid(
                                        sk.graph[cur as int],
                                        nt,
                                    ));
                                } else {
                                    assert(s1.graph[f as int] == sk.graph[f as int]);
                                }
                            } else {
                                assert(seq_target(s1.graph, s1.current[tt]));
                            }
                        }
                    }
                }
            } else {
                current.set(child, Some(cur));
                proof {
                    assert(build_step(tasks@, sk, t) == Ok::<BuildState, TraceError>(
                        exec_state(graph@, fathers@, current@),
                    ));
                    assert(wf_state(exec_state(graph@, fathers@, current@), n as nat)) by {
                        assert forall|tt: int| 0 <= tt < n implies seq_target(
                            s1.graph,
                            #[trigger] current@[tt],
                        ) by {
                            if tt == child as int {
                                assert(s1.graph[cur as int] == with_kid(
                                    sk.graph[cur as int],
                                    nt,
                                ));
                            } else {
                                assert(seq_target(s1.graph, s1.current[tt]));
                            }
                        }
                    }
                }
            }
            proof {
                assert(build_prefix(tasks@, ids@, k + 1) == Ok::<BuildState, TraceError>(
                    exec_state(graph@, fathers@, current@),
                ));
            }
        } else if clen >= 2 {
            let pb = graph.len();
            let ghost gv1 = graph@;
            let pblk = Block::Parallel(Vec::new());
            let ghost gpblk = pblk;
            graph.push(pblk);
            fathers.push(None);
            proof {
                lemma_arena_view_push(gv1, gpblk);
                lemma_arena_view_len(graph@);
            }
            append_child(&mut graph, cur, pb);
            let ghost s2 = BuildState {
                graph: append_kid(s1.graph.push(BlockShape::Parallel(Seq::empty())), cur, pb),
                fathers: s1.fathers.push(None),
                current: s1.current,
            };
            proof {
                assert(exec_state(graph@, fathers@, current@) == s2);
                lemma_arena_view_len(graph@);
                assert forall|d: BlockId| true implies #[trigger] parent_count(s2.graph, d)
                    == if d == pb {
                    1nat
                } else {
                    parent_count(s1.graph, d)
                } by {
                    let g2 = s1.graph.push(BlockShape::Parallel(Seq::empty()));
                    lemma_pc_push(s1.graph, BlockShape::Parallel(Seq::empty()), d);
                    if d == pb {
                        lemma_pc_zero_fresh(s1.graph, d);
                    }
                    lemma_pc_append(g2, cur, pb, d);
                }
                assert(wf_arena(s2.graph)) by {
                    assert forall|i: int, j: int|
                        0 <= i < s2.graph.len() && 0 <= j < kids(#[trigger] s2.graph[i]).len()
                        implies i < #[trigger] kids(s2.graph[i])[j] && (kids(
                        s2.graph[i],
                    )[j] as int) < s2.graph.len() by {
                        if i == cur as int {
                            assert(s2.graph[i] == with_kid(s1.graph[cur as int], pb));
                            if j < kids(s2.graph[i]).len() - 1 {
                                assert(kids(s2.graph[i])[j] == kids(s1.graph[cur as int])[j]);
                            } else {
                                assert(kids(s2.graph[i])[j] == pb);
                            }
                        } else if i < s1.graph.len() {
                            assert(s2.graph[i] == s1.graph[i]);
                        } else {
                            assert(s2.graph[i] == BlockShape::Parallel(Seq::empty()));
                        }
                    }
                }
                assert(wf_state(s2, n as nat)) by {
                    if cur == 0 {
                        assert(s2.graph[0] == with_kid(s1.graph[0], pb));
                    } else {
                        assert(s2.graph[0] == s1.graph[0]);
                    }
                    assert(s2.graph[0] is Sequence);
                    assert forall|tt: int| 0 <= tt < n implies seq_target(
                        s2.graph,
                        #[trigger] s2.current[tt],
                    ) by {
                        assert(seq_target(s1.graph, s1.current[tt]));
                    }
                    assert forall|i: int| 0 <= i < s2.fathers.len() implies seq_target(
                        s2.graph,
                        #[trigger] s2.fathers[i],
                    ) by {
                        if i < s1.fathers.len() {
                            assert(seq_target(s1.graph, s1.fathers[i]));
                        }
                    }
                }
                assert(task_ids(s2.graph) == ids@.take(k + 1)) by {
                    lemma_task_ids_push_other(s1.graph, BlockShape::Parallel(Seq::empty()));
                    lemma_task_ids_update(
                        s1.graph.push(BlockShape::Parallel(Seq::empty())),
                        cur as int,
                        with_kid(s1.graph[cur as int], pb),
                    );
                }
                assert(build_step(tasks@, sk, t) == fanout_step(
                    s2,
                    pb,
                    cur,
                    tasks@[t as int].children@,
                    0,
                ));
            }
            let mut j: usize = 0;
            while j < clen
                invariant
                    j <= clen,
                    n == tasks@.len(),
                    1 <= n,
                    (t as int) < n,
                    (k as int) < n,
                    ids@ == sorted_ids(tasks@),
                    ids@.len() == n,
                    ids@[k as int] == t,
                    build_prefix(tasks@, ids@, k as int) == Ok::<BuildState, TraceError>(sk),
                    clen == tasks@[t as int].children@.len(),
                    forall|i: int, jj: int|
                        0 <= i < tasks@.len() && 0 <= jj < tasks@[i].children@.len() ==> (
                        #[trigger] tasks@[i].children@[jj] as int) < tasks@.len(),
                    fathers@.len() == graph@.len(),
                    current@.len() == n,
                    (pb as int) < arena_view(graph@).len(),
                    (cur as int) < arena_view(graph@).len(),
                    arena_view(graph@)[pb as int] is Parallel,
                    arena_view(graph@)[cur as int] is Sequence,
                    wf_state(exec_state(graph@, fathers@, current@), n as nat),
                    task_ids(arena_view(graph@)) == ids@.take(k + 1),
                    fanout_step(
                        exec_state(graph@, fathers@, current@),
                        pb,
                        cur,
                        tasks@[t as int].children@,
                        j as int,
                    ) == build_step(tasks@, sk, t),
                decreases clen - j,
            {
                let ghost sj = exec_state(graph@, fathers@, current@);
                let child = tasks[t].children[j];
                proof {
                    assert((tasks@[t as int].children@[j as int] as int) < n);
                }
                if current[child].is_some() {
                    proof {
                        assert(build_step(tasks@, sk, t) == Err::<BuildState, TraceError>(
                            TraceError::ForkConflict,
                        ));
                        assert(build_prefix(tasks@, ids@, k + 1) == Err::<
                            BuildState,
                            TraceError,
                        >(TraceError::ForkConflict));
                        lemma_prefix_err(tasks@, ids@, k + 1, n as int);
                    }
                    return Err(TraceError::ForkConflict);
                }
                let sb = graph.len();
                let ghost gv2 = graph@;
                let sblk = Block::Sequence(Vec::new());
                let ghost gsblk = sblk;
                graph.push(sblk);
                fathers.push(Some(cur));
                proof {
                    lemma_arena_view_push(gv2, gsblk);
                    lemma_arena_view_len(graph@);
                }
                append_child(&mut graph, pb, sb);
                current.set(child, Some(sb));
                let ghost snext = BuildState {
                    graph: append_kid(sj.graph.push(BlockShape::Sequence(Seq::empty())), pb, sb),
                    fathers: sj.fathers.push(Some(cur)),
                    current: sj.current.update(child as int, Some(sb)),
                };
                proof {
                    assert(exec_state(graph@, fathers@, current@) == snext);
                    lemma_arena_view_len(graph@);
                    assert forall|d: BlockId| true implies #[trigger] parent_count(
                        snext.graph,
                        d,
                    ) == if d == sb {
                        1nat
                    } else {
                        parent_count(sj.graph, d)
                    } by {
                        let g3 = sj.graph.push(BlockShape::Sequence(Seq::empty()));
                        lemma_pc_push(sj.graph, BlockShape::Sequence(Seq::empty()), d);
                        if d == sb {
                            lemma_pc_zero_fresh(sj.graph, d);
                        }
                        lemma_pc_append(g3, pb, sb, d);
                    }
                    assert(wf_arena(snext.graph)) by {
                        assert forall|i: int, jj: int|
                            0 <= i < snext.graph.len() && 0 <= jj < kids(
                                #[trigger] snext.graph[i],
                            ).len() implies i < #[trigger] kids(snext.graph[i])[jj] && (kids(
                            snext.graph[i],
                        )[jj] as int) < snext.graph.len() by {
                            if i == pb as int {
                                assert(snext.graph[i] == with_kid(sj.graph[pb as int], sb));
                                if jj < kids(snext.graph[i]).len() - 1 {
                                    assert(kids(snext.graph[i])[jj] == kids(
                                        sj.graph[pb as int],
                                    )[jj]);
                                } else {
                                    assert(kids(snext.graph[i])[jj] == sb);
                                }
                            } else if i < sj.graph.len() {
                                assert(snext.graph[i] == sj.graph[i]);
                            } else {
                                assert(snext.graph[i] == BlockShape::Sequence(Seq::empty()));
                            }
                        }
                    }
                    assert(wf_state(snext, n as nat)) by {
                        if pb == 0 {
                            assert(snext.graph[0] == with_kid(sj.graph[0], sb));
                        } else {
                            assert(snext.graph[0] == sj.graph[0]);
                        }
                        assert(snext.graph[0] is Sequence);
                        assert forall|tt: int| 0 <= tt < n implies seq_target(
                            snext.graph,
                            #[trigger] snext.current[tt],
                        ) by {
                            if tt == child as int {
                                assert(snext.graph[sb as int] == BlockShape::Sequence(
                                    Seq::empty(),
                                ));
                            } else {
                                assert(seq_target(sj.graph, sj.current[tt]));
                                if sj.current[tt] is Some {
                                    let b = sj.current[tt]->0;
                                    assert(snext.graph[b as int] == if b == pb {
                                        with_kid(sj.graph[pb as int], sb)
                                    } else {
                                        sj.graph[b as int]
                                    });
                                }
                            }
                        }
                        assert forall|i: int| 0 <= i < snext.fathers.len() implies seq_target(
                            snext.graph,
                            #[trigger] snext.fathers[i],
                        ) by {
                            if i < sj.fathers.len() {
                                assert(seq_target(sj.graph, sj.fathers[i]));
                                if sj.fathers[i] is Some {
                                    let b = sj.fathers[i]->0;
                                    assert(snext.graph[b as int] == if b == pb {
                                        with_kid(sj.graph[pb as int], sb)
                                    } else {
                                        sj.graph[b as int]
                                    });
                                }
                            } else {
                                assert(snext.fathers[i] == Some(cur));
                            }
                        }
                    }
                    assert(task_ids(snext.graph) == ids@.take(k + 1)) by {
                        lemma_task_ids_push_other(sj.graph, BlockShape::Sequence(Seq::empty()));
                        lemma_task_ids_update(
                            sj.graph.push(BlockShape::Sequence(Seq::empty())),
                            pb as int,
                            with_kid(sj.graph[pb as int], sb),
                        );
                    }
                    assert(fanout_step(sj, pb, cur, tasks@[t as int].children@, j as int)
                        == fanout_step(snext, pb, cur, tasks@[t as int].children@, j + 1));
                }
                j += 1;
            }
            proof {
                assert(build_step(tasks@, sk, t) == Ok::<BuildState, TraceError>(
                    exec_state(graph@, fathers@, current@),
                ));
                assert(build_prefix(tasks@, ids@, k + 1) == Ok::<BuildState, TraceError>(
                    exec_state(graph@, fathers@, current@),
                ));
            }
        } else {
            proof {
                assert(build_step(tasks@, sk, t) == Ok::<BuildState, TraceError>(
                    exec_state(graph@, fathers@, current@),
                ));
                assert(build_prefix(tasks@, ids@, k + 1) == Ok::<BuildState, TraceError>(
                    exec_state(graph@, fathers@, current@),
                ));
            }
        }
        k += 1;
    }
    proof {
        assert(ids@.take(n as int) =~= ids@);
        assert(build_run(tasks@) == Ok::<BuildState, TraceError>(
            exec_state(graph@, fathers@, current@),
        ));
    }
    Ok(graph)
}

/// Every task identifier of a run occurs exactly once in the replay order;
/// with [`create_graph`]'s contract this is the tree-completeness law:
/// each task lands in exactly one task block of a proper tree.
pub proof fn lemma_task_coverage(tasks: Seq<TaskLog>)
    requires
        tasks.len() <= usize::MAX,
    ensures
        sorted_ids(tasks).to_multiset() == identity_ids(tasks.len()).to_multiset(),
        forall|t: TaskId|
            (t as int) < tasks.len() ==> #[trigger] sorted_ids(tasks).to_multiset().count(t) == 1,
        forall|t: TaskId|
            (t as int) >= tasks.len() ==> #[trigger] sorted_ids(tasks).to_multiset().count(t)
                == 0,
{
    let idseq = identity_ids(tasks.len());
    idseq.lemma_sort_by_ensures(id_order(tasks));
    assert(sorted_ids(tasks).to_multiset() =~= idseq.to_multiset());
    assert forall|i: int, j: int| 0 <= i < j < idseq.len() implies idseq[i] != idseq[j] by {
        assert(idseq[i] == i as usize);
        assert(idseq[j] == j as usize);
    }
    assert(idseq.no_duplicates());
    idseq.lemma_multiset_has_no_duplicates();
    assert forall|t: TaskId| (t as int) < tasks.len() implies #[trigger] sorted_ids(
        tasks,
    ).to_multiset().count(t) == 1 by {
        assert(idseq[t as int] == t);
        assert(idseq.contains(t));
        assert(idseq.to_multiset().contains(t));
    }
    assert forall|t: TaskId| (t as int) >= tasks.len() implies #[trigger] sorted_ids(
        tasks,
    ).to_multiset().count(t) == 0 by {
        if idseq.to_multiset().count(t) > 0 {
            assert(idseq.contains(t));
        }
    }
}

} // verus!
