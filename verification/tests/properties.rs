use functional_graph::FunctionalGraph;

/// A successor table of `n` entries from a linear congruential sequence.
fn scrambled(n: usize, seed: u64) -> Vec<usize> {
    let mut x = seed;
    let mut out = Vec::with_capacity(n);
    for _ in 0..n {
        x = (x * 1_103_515_245 + 12_345) % (1 << 31);
        out.push(((x >> 8) % n as u64) as usize);
    }
    out
}

fn graph_of(succs: &[usize]) -> FunctionalGraph {
    FunctionalGraph::new(succs.len(), |v| succs[v])
}

fn step(succs: &[usize], mut v: usize, k: usize) -> usize {
    for _ in 0..k {
        v = succs[v];
    }
    v
}

#[test]
fn scrambled_graph_has_the_expected_cycles() {
    let succs = scrambled(1000, 7);
    let fg = graph_of(&succs);
    assert_eq!(fg.cycles(), vec![446, 12, 5, 213, 74, 14, 370, 902]);
    let lens: Vec<usize> = fg.cycles().iter().map(|&r| fg.cycle_len_of(r)).collect();
    assert_eq!(lens, vec![2, 23, 4, 5, 23, 8, 3, 1]);
    assert_eq!(fg.source_count(), 371);
    assert_eq!(fg.sources()[..8].to_vec(), vec![1, 6, 10, 16, 22, 23, 25, 26]);
    let longest = (0..1000).map(|v| fg.noncycle_len_of(v)).max();
    assert_eq!(longest, Some(41));
}

#[test]
fn every_vertex_returns_to_its_cycle_entry() {
    let succs = scrambled(1000, 7);
    let fg = graph_of(&succs);
    for v in 0..1000 {
        let t = fg.noncycle_len_of(v);
        let len = fg.cycle_len_of(v);
        assert!(len >= 1);
        let entry = step(&succs, v, t);
        assert_eq!(step(&succs, entry, len), entry);
        for j in 1..len {
            assert_ne!(step(&succs, entry, j), entry);
        }
        if t > 0 {
            let before = step(&succs, v, t - 1);
            assert_ne!(step(&succs, before, len), before);
        }
        assert_eq!(fg.cycle_of(v), fg.cycle_of(entry));
        assert_eq!(fg.cycle_of(v), fg.cycle_of(succs[v]));
    }
}

#[test]
fn representative_is_the_least_vertex_of_the_cycle() {
    let succs = scrambled(1000, 7);
    let fg = graph_of(&succs);
    for v in 0..1000 {
        let r = fg.cycle_of(v);
        let cycle = fg.path_from(r);
        assert_eq!(cycle.len(), fg.cycle_len_of(v));
        assert_eq!(cycle.iter().min(), Some(&r));
        if fg.noncycle_len_of(v) == 0 {
            assert!(r <= v);
            assert!(cycle.contains(&v));
        }
    }
}

#[test]
fn kth_successor_agrees_with_stepping() {
    let succs = scrambled(1000, 7);
    let fg = graph_of(&succs);
    for v in (0..1000).step_by(7) {
        for k in 0..120 {
            assert_eq!(fg.kth_succ(v, k), step(&succs, v, k));
        }
        let t = fg.noncycle_len_of(v);
        let len = fg.cycle_len_of(v);
        let k: usize = 3_000_000_000;
        let reduced = t + (k - t) % len;
        assert_eq!(fg.kth_succ(v, k), step(&succs, v, reduced));
        assert_eq!(fg.kth_succ(v, k), fg.kth_succ(v, reduced));
    }
}

#[test]
fn cycles_and_tails_cover_the_vertices() {
    for seed in 1..6 {
        let succs = scrambled(500, seed);
        let fg = graph_of(&succs);
        let on_cycles: usize = fg.cycles().iter().map(|&r| fg.cycle_len_of(r)).sum();
        let on_tails = (0..500).filter(|&v| fg.noncycle_len_of(v) > 0).count();
        assert_eq!(on_cycles + on_tails, 500);
    }
    let succs = scrambled(1000, 7);
    let fg = graph_of(&succs);
    let on_cycles: usize = fg.cycles().iter().map(|&r| fg.cycle_len_of(r)).sum();
    let on_tails = (0..1000).filter(|&v| fg.noncycle_len_of(v) > 0).count();
    assert_eq!(on_cycles, 69);
    assert_eq!(on_tails, 931);
}

#[test]
fn sources_are_the_vertices_outside_the_image() {
    let succs = scrambled(1000, 7);
    let fg = graph_of(&succs);
    let mut expected = Vec::new();
    for v in 0..1000 {
        let entered = succs.iter().any(|&w| w == v);
        assert_eq!(fg.is_source(v), !entered);
        if !entered {
            expected.push(v);
        }
    }
    assert_eq!(fg.sources(), expected);
    assert_eq!(fg.source_count(), expected.len());
}

#[test]
fn path_from_follows_the_edges_and_ends_before_repeating() {
    let succs = scrambled(1000, 7);
    let fg = graph_of(&succs);
    for v in 0..1000 {
        let path = fg.path_from(v);
        assert_eq!(path.len(), fg.noncycle_len_of(v) + fg.cycle_len_of(v));
        assert_eq!(path[0], v);
        for i in 1..path.len() {
            assert_eq!(path[i], succs[path[i - 1]]);
        }
        let mut seen = path.clone();
        seen.sort();
        seen.dedup();
        assert_eq!(seen.len(), path.len());
        assert_eq!(succs[path[path.len() - 1]], path[fg.noncycle_len_of(v)]);
    }
}

#[test]
fn building_twice_gives_the_same_graph() {
    let succs = scrambled(1000, 11);
    let a = graph_of(&succs);
    let b = graph_of(&succs);
    assert_eq!(a.node_count(), b.node_count());
    assert_eq!(a.cycles(), b.cycles());
    assert_eq!(a.sources(), b.sources());
    for v in 0..1000 {
        assert_eq!(a.succ(v), b.succ(v));
        assert_eq!(a.cycle_of(v), b.cycle_of(v));
        assert_eq!(a.cycle_len_of(v), b.cycle_len_of(v));
        assert_eq!(a.noncycle_len_of(v), b.noncycle_len_of(v));
        assert_eq!(a.is_source(v), b.is_source(v));
    }
}

#[test]
fn cycles_are_listed_once_each_by_least_leading_vertex() {
    let succs = scrambled(1000, 7);
    let fg = graph_of(&succs);
    let mut expected = Vec::new();
    for v in 0..1000 {
        let r = fg.cycle_of(v);
        if !expected.contains(&r) {
            expected.push(r);
        }
    }
    assert_eq!(fg.cycles(), expected);
    assert_eq!(fg.cycle_count(), expected.len());
}
