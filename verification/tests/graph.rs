use functional_graph::FunctionalGraph;
use std::num::NonZeroUsize;

fn graph_from_succs(succs: &[usize]) -> FunctionalGraph {
    let n = succs.len();
    FunctionalGraph::new(n, |v| succs[v])
}

fn sorted(mut v: Vec<usize>) -> Vec<usize> {
    v.sort();
    v
}

#[test]
fn test_identity() {
    let fg = graph_from_succs(&[0, 1, 2]);

    assert_eq!(fg.node_count(), 3);

    assert_eq!(fg.succ(0), 0);
    assert_eq!(fg.succ(1), 1);
    assert_eq!(fg.succ(2), 2);

    assert_eq!(fg.kth_succ(0, 0), 0);
    assert_eq!(fg.kth_succ(0, 5), 0);

    assert_eq!(fg.path_from(0), vec![0]);
    assert_eq!(fg.path_from(1), vec![1]);
    assert_eq!(fg.path_from(2), vec![2]);

    assert_eq!(fg.cycle_count(), 3);

    assert_eq!(sorted(fg.cycles()), vec![0, 1, 2]);

    assert_eq!(
        NonZeroUsize::new(fg.cycle_len_of(0)).unwrap(),
        NonZeroUsize::new(1).unwrap()
    );
    assert_eq!(
        NonZeroUsize::new(fg.cycle_len_of(1)).unwrap(),
        NonZeroUsize::new(1).unwrap()
    );
    assert_eq!(
        NonZeroUsize::new(fg.cycle_len_of(2)).unwrap(),
        NonZeroUsize::new(1).unwrap()
    );

    assert_eq!(fg.noncycle_len_of(0), 0);
    assert_eq!(fg.noncycle_len_of(1), 0);
    assert_eq!(fg.noncycle_len_of(2), 0);

    assert_eq!(fg.source_count(), 0);

    assert_eq!(fg.sources(), Vec::<usize>::new());

    assert!(!fg.is_source(0));
    assert!(!fg.is_source(1));
    assert!(!fg.is_source(2));
}

#[test]
fn test_graph() {
    // 0 -> 1 ----> 2 <- 4
    //      ^       |
    //      |       |
    //      +-- 3 <-+
    let fg = graph_from_succs(&[1, 2, 3, 1, 2]);

    assert_eq!(fg.node_count(), 5);

    assert_eq!(fg.kth_succ(0, 11), 2);
    assert_eq!(fg.kth_succ(2, 5), 1);
    assert_eq!(fg.kth_succ(4, 3 * 1_000_000_000 + 2), 3);

    assert_eq!(fg.path_from(0), vec![0, 1, 2, 3]);
    assert_eq!(fg.path_from(2), vec![2, 3, 1]);
    assert_eq!(fg.path_from(4), vec![4, 2, 3, 1]);

    assert_eq!(fg.cycle_count(), 1);

    assert_eq!(fg.cycles(), vec![1]);

    assert_eq!(fg.cycle_of(0), 1);
    assert_eq!(fg.cycle_of(2), 1);
    assert_eq!(fg.cycle_of(4), 1);

    assert_eq!(
        NonZeroUsize::new(fg.cycle_len_of(0)).unwrap(),
        NonZeroUsize::new(3).unwrap()
    );
    assert_eq!(
        NonZeroUsize::new(fg.cycle_len_of(2)).unwrap(),
        NonZeroUsize::new(3).unwrap()
    );
    assert_eq!(
        NonZeroUsize::new(fg.cycle_len_of(4)).unwrap(),
        NonZeroUsize::new(3).unwrap()
    );

    assert_eq!(fg.noncycle_len_of(0), 1);
    assert_eq!(fg.noncycle_len_of(2), 0);
    assert_eq!(fg.noncycle_len_of(4), 1);

    assert_eq!(fg.source_count(), 2);

    assert_eq!(fg.sources(), vec![0, 4]);

    assert!(fg.is_source(0));
    assert!(!fg.is_source(2));
    assert!(fg.is_source(4));
}

#[test]
fn identity_graph_in_full() {
    let fg = graph_from_succs(&[0, 1, 2]);
    assert_eq!(fg.cycles(), vec![0, 1, 2]);
    for v in 0..3 {
        assert_eq!(fg.cycle_of(v), v);
        assert_eq!(fg.cycle_len_of(v), 1);
        assert_eq!(fg.noncycle_len_of(v), 0);
        assert_eq!(fg.path_from(v), vec![v]);
        assert!(!fg.is_source(v));
    }
}

#[test]
fn mixed_graph_in_full() {
    let fg = graph_from_succs(&[1, 2, 3, 1, 2]);
    let tails: Vec<usize> = (0..5).map(|v| fg.noncycle_len_of(v)).collect();
    assert_eq!(tails, vec![1, 0, 0, 0, 1]);
    for v in 0..5 {
        assert_eq!(fg.cycle_of(v), 1);
        assert_eq!(fg.cycle_len_of(v), 3);
    }
    assert_eq!(fg.sources(), vec![0, 4]);
    assert_eq!(fg.kth_succ(4, 3_000_000_002), 3);
    assert_eq!(fg.kth_succ(0, 0), 0);
    assert_eq!(fg.kth_succ(0, 1), 1);
    assert_eq!(fg.succ(4), 2);
}

#[test]
fn empty_graph() {
    let fg = FunctionalGraph::new(0, |v| v);
    assert_eq!(fg.node_count(), 0);
    assert_eq!(fg.cycle_count(), 0);
    assert_eq!(fg.cycles(), Vec::<usize>::new());
    assert_eq!(fg.source_count(), 0);
    assert_eq!(fg.sources(), Vec::<usize>::new());
}

#[test]
fn single_self_loop() {
    let fg = graph_from_succs(&[0]);
    assert_eq!(fg.node_count(), 1);
    assert_eq!(fg.cycle_count(), 1);
    assert_eq!(fg.cycles(), vec![0]);
    assert_eq!(fg.cycle_of(0), 0);
    assert_eq!(fg.cycle_len_of(0), 1);
    assert_eq!(fg.noncycle_len_of(0), 0);
    assert_eq!(fg.path_from(0), vec![0]);
    assert_eq!(fg.kth_succ(0, usize::MAX), 0);
    assert!(!fg.is_source(0));
    assert_eq!(fg.source_count(), 0);
}

#[test]
fn walk_that_meets_a_classified_cycle_vertex() {
    // 0 <-> 1, and 2 -> 0: vertex 2 is walked when 0 is classified already.
    let fg = graph_from_succs(&[1, 0, 0]);
    assert_eq!(fg.cycle_of(2), 0);
    assert_eq!(fg.cycle_len_of(2), 2);
    assert_eq!(fg.noncycle_len_of(2), 1);
    assert_eq!(fg.path_from(2), vec![2, 0, 1]);
    assert_eq!(fg.sources(), vec![2]);
}

#[test]
fn walk_that_meets_a_classified_tail_vertex() {
    // 0 -> 1 -> 2 -> 2, then 3 -> 4 -> 0.
    let fg = graph_from_succs(&[1, 2, 2, 4, 0]);
    let tails: Vec<usize> = (0..5).map(|v| fg.noncycle_len_of(v)).collect();
    assert_eq!(tails, vec![2, 1, 0, 4, 3]);
    for v in 0..5 {
        assert_eq!(fg.cycle_of(v), 2);
        assert_eq!(fg.cycle_len_of(v), 1);
    }
    assert_eq!(fg.cycles(), vec![2]);
    assert_eq!(fg.path_from(3), vec![3, 4, 0, 1, 2]);
    assert_eq!(fg.sources(), vec![3]);
}

#[test]
fn start_in_the_middle_of_a_cycle() {
    // The cycle 0 -> 3 -> 2 -> 1 -> 0 is entered at its least vertex.
    let fg = graph_from_succs(&[3, 0, 1, 2]);
    assert_eq!(fg.cycle_count(), 1);
    assert_eq!(fg.cycles(), vec![0]);
    for v in 0..4 {
        assert_eq!(fg.cycle_of(v), 0);
        assert_eq!(fg.cycle_len_of(v), 4);
        assert_eq!(fg.noncycle_len_of(v), 0);
    }
    assert_eq!(fg.path_from(2), vec![2, 1, 0, 3]);
}

#[test]
fn cycles_come_in_order_of_discovery() {
    // From 0 the cycle {3, 4} is found first, then from 1 the cycle {1, 2}.
    let fg = graph_from_succs(&[3, 2, 1, 4, 3]);
    assert_eq!(fg.cycles(), vec![3, 1]);
    assert_eq!(fg.cycle_count(), 2);
    assert_eq!(fg.cycle_of(0), 3);
    assert_eq!(fg.cycle_of(1), 1);
    assert_eq!(fg.cycle_of(2), 1);
    assert_eq!(fg.noncycle_len_of(0), 1);
    assert_eq!(fg.sources(), vec![0]);
}

#[test]
fn several_cycles_and_tails() {
    let fg = graph_from_succs(&[2, 1, 0, 0, 3, 4, 7, 6]);
    assert_eq!(fg.cycles(), vec![0, 1, 6]);
    let reprs: Vec<usize> = (0..8).map(|v| fg.cycle_of(v)).collect();
    assert_eq!(reprs, vec![0, 1, 0, 0, 0, 0, 6, 6]);
    let lens: Vec<usize> = (0..8).map(|v| fg.cycle_len_of(v)).collect();
    assert_eq!(lens, vec![2, 1, 2, 2, 2, 2, 2, 2]);
    let tails: Vec<usize> = (0..8).map(|v| fg.noncycle_len_of(v)).collect();
    assert_eq!(tails, vec![0, 0, 0, 1, 2, 3, 0, 0]);
    assert_eq!(fg.sources(), vec![5]);
    assert_eq!(fg.source_count(), 1);
    assert_eq!(fg.path_from(5), vec![5, 4, 3, 0, 2]);
    assert_eq!(fg.kth_succ(5, 2), 3);
    assert_eq!(fg.kth_succ(5, 3), 0);
    assert_eq!(fg.kth_succ(5, 4), 2);
    assert_eq!(fg.kth_succ(5, 1_000_000_001), 0);
}

#[test]
fn all_vertices_lead_to_one_sink() {
    let fg = graph_from_succs(&[5, 5, 5, 5, 5, 5]);
    assert_eq!(fg.cycles(), vec![5]);
    assert_eq!(fg.sources(), vec![0, 1, 2, 3, 4]);
    for v in 0..5 {
        assert!(fg.is_source(v));
        assert_eq!(fg.noncycle_len_of(v), 1);
        assert_eq!(fg.path_from(v), vec![v, 5]);
    }
    assert!(!fg.is_source(5));
    assert_eq!(fg.noncycle_len_of(5), 0);
}

#[test]
fn self_loop_is_no_source() {
    let fg = graph_from_succs(&[0, 0]);
    assert!(!fg.is_source(0));
    assert!(fg.is_source(1));
    assert_eq!(fg.sources(), vec![1]);
}

#[test]
fn transition_function_is_called_once_per_vertex_in_order() {
    let mut calls = Vec::new();
    let fg = FunctionalGraph::new(4, |v| {
        calls.push(v);
        (v + 1) % 4
    });
    assert_eq!(fg.node_count(), 4);
    assert_eq!(calls, vec![0, 1, 2, 3]);
}

#[test]
fn long_chain_needs_no_deep_recursion() {
    let n = 200_000;
    let fg = FunctionalGraph::new(n, |v| if v + 1 < n { v + 1 } else { v });
    assert_eq!(fg.cycle_count(), 1);
    assert_eq!(fg.cycles(), vec![n - 1]);
    assert_eq!(fg.noncycle_len_of(0), n - 1);
    assert_eq!(fg.cycle_len_of(0), 1);
    assert_eq!(fg.sources(), vec![0]);
    assert_eq!(fg.kth_succ(0, 12_345), 12_345);
    assert_eq!(fg.kth_succ(0, usize::MAX), n - 1);
    assert_eq!(fg.path_from(n - 3), vec![n - 3, n - 2, n - 1]);
}
