use fork_join_viz::trace::{RunLog, TaskLog, TraceError};
use fork_join_viz::fork_join_graph::{create_graph, Block};
use fork_join_viz::dimensions::compute_blocks_dimensions;
use fork_join_viz::geometry::thread_color;
use fork_join_viz::idle::compute_idle_times;
use fork_join_viz::speeds::{compute_speeds, opacity};
use fork_join_viz::visualisation::{visualisation, visualise_run};

fn task(thread_id: usize, start: u64, end: u64, children: Vec<usize>) -> TaskLog {
    TaskLog { thread_id, start_time: start, end_time: end, children, work: None }
}

fn run(tasks: Vec<TaskLog>, threads_number: usize) -> RunLog {
    RunLog { tasks_logs: tasks, threads_number }
}

#[test]
fn empty_run_is_rejected() {
    let r = run(vec![], 1);
    assert_eq!(visualisation(&vec![r]), Err(TraceError::EmptyRun));
}

#[test]
fn reversed_task_is_rejected() {
    let r = run(vec![task(0, 5, 3, vec![])], 1);
    assert_eq!(visualisation(&vec![r]), Err(TraceError::ReversedTask));
}

#[test]
fn unknown_thread_is_rejected() {
    let r = run(vec![task(1, 0, 1, vec![])], 1);
    assert_eq!(visualisation(&vec![r]), Err(TraceError::UnknownThread));
}

#[test]
fn unknown_child_is_rejected() {
    let r = run(vec![task(0, 0, 1, vec![5])], 1);
    assert_eq!(visualisation(&vec![r]), Err(TraceError::UnknownChild));
}

#[test]
fn zero_duration_work_is_rejected() {
    let mut t = task(0, 4, 4, vec![]);
    t.work = Some((0, 10));
    assert_eq!(visualisation(&vec![run(vec![t], 1)]), Err(TraceError::ZeroDurationWork));
}

#[test]
fn oversized_timestamp_is_rejected() {
    let r = run(vec![task(0, 0, 1 << 41, vec![])], 1);
    assert_eq!(visualisation(&vec![r]), Err(TraceError::RunTooLarge));
}

#[test]
fn unclaimed_task_is_rejected() {
    let r = run(vec![task(0, 0, 1, vec![]), task(0, 1, 2, vec![])], 1);
    assert_eq!(visualisation(&vec![r]), Err(TraceError::TaskNotClaimed));
}

#[test]
fn fork_conflict_is_rejected() {
    let r = run(
        vec![
            task(0, 0, 1, vec![1, 2]),
            task(0, 1, 2, vec![2, 3]),
            task(0, 2, 3, vec![]),
            task(0, 3, 4, vec![]),
        ],
        1,
    );
    assert_eq!(visualisation(&vec![r]), Err(TraceError::ForkConflict));
}

#[test]
fn join_without_fork_is_rejected() {
    let r = run(vec![task(0, 0, 1, vec![1]), task(0, 1, 2, vec![1])], 1);
    assert_eq!(visualisation(&vec![r]), Err(TraceError::JoinWithoutFork));
}

#[test]
fn empty_branch_is_rejected() {
    let r = run(
        vec![task(0, 0, 1, vec![1, 2]), task(0, 1, 2, vec![2]), task(0, 2, 3, vec![])],
        1,
    );
    assert_eq!(visualisation(&vec![r]), Err(TraceError::EmptyBranch));
}

#[test]
fn tall_idle_rows_clamp_to_the_run_offset() {
    // a one-row layout on a five-thread pool: the idle rows cannot be
    // centered above the run's offset, so they anchor at it
    let r = run(vec![task(0, 0, 1, vec![])], 5);
    let (rects, _) = visualisation(&vec![r]).unwrap();
    assert_eq!(rects.len(), 6);
    // two task rectangles at the offset, then one idle bar per waiting thread
    assert_eq!(rects[0].y, 0);
    for (i, t) in [(2usize, 1usize), (3, 2), (4, 3), (5, 4)] {
        assert_eq!(rects[i].x, 102);
        assert_eq!(rects[i].y, t as u64 * 120);
        assert_eq!(rects[i].width, 100);
        assert_eq!(rects[i].animation, Some((0, 1)));
        assert_eq!(rects[i].color, thread_color(t));
    }
}

#[test]
fn oversized_dimensions_overflow() {
    // two parallel branches whose widths alone fit the coordinate range,
    // but whose sum does not
    let tasks = vec![task(0, 0, 180_000_000_000_000_000, vec![])];
    let graph = vec![
        Block::Sequence(vec![1]),
        Block::Parallel(vec![2, 3]),
        Block::Task(0),
        Block::Task(0),
    ];
    assert_eq!(
        compute_blocks_dimensions(&tasks, &graph),
        Err(TraceError::LayoutOverflow)
    );
}

#[test]
fn fan_in_merges_into_father_sequence() {
    // 0 forks {1, 2}; both fork into 3: 3 continues in the root sequence.
    let tasks = vec![
        task(0, 0, 1, vec![1, 2]),
        task(0, 1, 2, vec![3]),
        task(0, 1, 2, vec![3]),
        task(0, 2, 3, vec![]),
    ];
    let g = create_graph(&tasks).unwrap();
    // root sequence: task 0, the parallel block, then task 3 — not a copy.
    match &g[0] {
        Block::Sequence(s) => assert_eq!(s, &vec![1, 2, 7]),
        _ => panic!("root must be a sequence"),
    }
    match &g[2] {
        Block::Parallel(p) => assert_eq!(p, &vec![3, 4]),
        _ => panic!("block 2 must be the fork"),
    }
    match &g[7] {
        Block::Task(t) => assert_eq!(*t, 3),
        _ => panic!("the join task must sit in the root sequence"),
    }
    let task_blocks = g
        .iter()
        .filter(|b| matches!(b, Block::Task(_)))
        .count();
    assert_eq!(task_blocks, 4);
}

#[test]
fn chain_reconstructs_to_single_sequence() {
    // Three chained tasks: one sequence, height 3 rows + 2 gaps, width the
    // longest duration.
    let tasks = vec![
        task(0, 0, 2, vec![1]),
        task(0, 2, 4, vec![2]),
        task(0, 4, 6, vec![]),
    ];
    let g = create_graph(&tasks).unwrap();
    assert_eq!(g.len(), 4);
    match &g[0] {
        Block::Sequence(s) => assert_eq!(s, &vec![1, 2, 3]),
        _ => panic!("root must be a sequence"),
    }
    for (i, tid) in [(1usize, 0usize), (2, 1), (3, 2)] {
        match &g[i] {
            Block::Task(t) => assert_eq!(*t, tid),
            _ => panic!("expected a task block"),
        }
    }
    let dims = compute_blocks_dimensions(&tasks, &g).unwrap();
    assert_eq!(dims[0], (200, 340));
    let r = run(tasks, 1);
    let mut rects = Vec::new();
    let mut edges = Vec::new();
    let h = visualise_run(&r, 0, &mut rects, &mut edges).unwrap();
    assert_eq!(h, 340);
    // two rectangles per task, no idle bars, and one connector per stage
    assert_eq!(rects.len(), 6);
    assert_eq!(edges.len(), 2);
    // the first task body: outline then colored body with its time tag
    assert_eq!(rects[0].animation, None);
    assert_eq!(rects[1].animation, Some((0, 2)));
    assert_eq!(rects[1].color, thread_color(0));
    assert_eq!(rects[1].opacity, 1000);
    // connector from the bottom middle of task 0 to the top middle of task 1
    assert_eq!(edges[0].0.x, 100);
    assert_eq!(edges[0].0.y, 100);
    assert_eq!(edges[0].1.x, 100);
    assert_eq!(edges[0].1.y, 120);
}

#[test]
fn idle_coverage_single_gap() {
    let tasks = vec![task(0, 0, 5, vec![]), task(0, 10, 12, vec![])];
    let mut rects = Vec::new();
    compute_idle_times(&tasks, (0, 0), 1, &mut rects);
    assert_eq!(rects.len(), 1);
    assert_eq!(rects[0].animation, Some((5, 10)));
    assert_eq!(rects[0].x, 0);
    assert_eq!(rects[0].y, 0);
    assert_eq!(rects[0].width, 500);
    assert_eq!(rects[0].height, 100);
    assert_eq!(rects[0].color, thread_color(0));
}

#[test]
fn idle_rows_sit_per_thread() {
    let tasks = vec![
        task(0, 0, 4, vec![]),
        task(1, 2, 4, vec![]),
    ];
    let mut rects = Vec::new();
    compute_idle_times(&tasks, (1000, 50), 2, &mut rects);
    // thread 1 was idle from 0 to 2; nothing else
    assert_eq!(rects.len(), 1);
    assert_eq!(rects[0].animation, Some((0, 2)));
    assert_eq!(rects[0].x, 1000);
    assert_eq!(rects[0].y, 50 + 120);
    assert_eq!(rects[0].width, 200);
}

#[test]
fn speeds_keep_the_fastest_per_type() {
    let mut t1 = task(0, 0, 2, vec![]);
    t1.work = Some((7, 10));
    let mut t2 = task(0, 2, 5, vec![]);
    t2.work = Some((7, 30));
    let sp = compute_speeds(&vec![t1, t2]);
    // 30/3 beats 10/2
    assert_eq!(sp, vec![(7, (30, 3))]);
}

#[test]
fn opacity_scales_with_relative_speed() {
    // speed 5 against best 10: 400 + 600 * 1/2
    assert_eq!(opacity(50, 10, 10, 1), 700);
    // a task at the best speed is fully opaque
    assert_eq!(opacity(10, 1, 10, 1), 1000);
    // a zero-work best means every observation was zero work
    assert_eq!(opacity(0, 5, 0, 5), 1000);
}

#[test]
fn palette_wraps_by_thread() {
    assert_eq!(thread_color(8), thread_color(0));
    assert_ne!(thread_color(1), thread_color(0));
}

#[test]
fn empty_trace_renders_nothing() {
    let out = visualisation(&vec![]).unwrap();
    assert!(out.0.is_empty());
    assert!(out.1.is_empty());
}

#[test]
fn two_runs_stack_vertically() {
    let r1 = run(vec![task(0, 0, 2, vec![])], 1);
    let r2 = run(vec![task(0, 0, 3, vec![])], 1);
    let (rects, edges) = visualisation(&vec![r1, r2]).unwrap();
    assert!(edges.is_empty());
    assert_eq!(rects.len(), 4);
    // run 1 occupies row 0; run 2 starts strictly below run 1's rectangles
    let run1_max = rects[..2].iter().map(|r| r.y + r.height).max().unwrap();
    let run2_min = rects[2..].iter().map(|r| r.y).min().unwrap();
    assert_eq!(run1_max, 100);
    assert_eq!(run2_min, 100);
    assert!(run2_min > rects[..2].iter().map(|r| r.y).max().unwrap());
    assert_eq!(rects[2].width, 300);
}

#[test]
fn work_tagged_run_renders_dimmed_bodies() {
    let mut t0 = task(0, 0, 2, vec![1]);
    t0.work = Some((1, 20));
    let mut t1 = task(0, 2, 6, vec![]);
    t1.work = Some((1, 20));
    let r = run(vec![t0, t1], 1);
    let mut rects = Vec::new();
    let mut edges = Vec::new();
    visualise_run(&r, 0, &mut rects, &mut edges).unwrap();
    // fastest task (20/2) fully opaque; the other at 400 + 600 * (20*2)/(4*20)
    assert_eq!(rects[1].opacity, 1000);
    assert_eq!(rects[3].opacity, 700);
}
