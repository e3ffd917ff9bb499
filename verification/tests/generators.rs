use functional_graph::FunctionalGraph;

/// Builds the graph of a generator on 16-bit states.
fn graph_u16(f: fn(u16) -> u16) -> FunctionalGraph {
    FunctionalGraph::new(0x10000, |v| {
        let v = u16::try_from(v).expect("v should be u16");
        usize::from(f(v))
    })
}

fn multiply_771_add_129(r: u16) -> u16 {
    r.wrapping_mul(771).wrapping_add(129)
}

fn crc_update(crc: u16) -> u16 {
    let mut reg = crc ^ 0xFF00;
    for _ in 0..8 {
        let carry = (reg & 0x8000) != 0;
        reg <<= 1;
        if carry {
            reg ^= 0x1021;
        }
    }
    reg
}

fn crc_twice(r: u16) -> u16 {
    crc_update(crc_update(r))
}

fn multiply_257_add_1(r: u16) -> u16 {
    r.wrapping_mul(257).wrapping_add(1)
}

fn bytes_apart(r: u16) -> u16 {
    let mut lo = u8::try_from(r & 0xFF).unwrap();
    let mut hi = u8::try_from(r >> 8).unwrap();
    lo = lo.wrapping_add(1);
    hi = hi.wrapping_mul(5).wrapping_add(1);
    u16::from(lo) | (u16::from(hi) << 8)
}

#[test]
fn linear_generator_has_two_half_cycles() {
    let fg = graph_u16(multiply_771_add_129);
    assert_eq!(fg.node_count(), 0x10000);
    assert_eq!(fg.cycles(), vec![0, 2]);
    assert_eq!(fg.cycle_len_of(0), 32768);
    assert_eq!(fg.cycle_len_of(2), 32768);
    assert_eq!(fg.source_count(), 0);
    assert_eq!(fg.kth_succ(0, 32768), 0);
    assert_eq!(fg.kth_succ(0, 1), 129);
}

#[test]
fn crc_generator_has_two_fixed_points() {
    let fg = graph_u16(crc_twice);
    assert_eq!(fg.cycles(), vec![0, 1, 24554, 45045]);
    let lens: Vec<usize> = fg.cycles().iter().map(|&r| fg.cycle_len_of(r)).collect();
    assert_eq!(lens, vec![32767, 32767, 1, 1]);
    assert_eq!(fg.succ(24554), 24554);
    assert_eq!(fg.succ(45045), 45045);
    assert_eq!(fg.source_count(), 0);
}

#[test]
fn full_period_generator_is_one_cycle() {
    let fg = graph_u16(multiply_257_add_1);
    assert_eq!(fg.cycles(), vec![0]);
    assert_eq!(fg.cycle_len_of(12345), 65536);
    assert_eq!(fg.noncycle_len_of(12345), 0);
    assert_eq!(fg.path_from(0).len(), 65536);
    assert_eq!(fg.sources(), Vec::<usize>::new());
}

#[test]
fn bytewise_generator_has_256_cycles() {
    let fg = graph_u16(bytes_apart);
    assert_eq!(fg.cycle_count(), 256);
    let expected: Vec<usize> = (0..256).collect();
    assert_eq!(fg.cycles(), expected);
    for r in fg.cycles() {
        assert_eq!(fg.cycle_len_of(r), 256);
    }
    assert_eq!(fg.source_count(), 0);
}
