//! The mathematical model: a functional graph is its successor table, and
//! every notion the library reports is defined here from that table alone.

use vstd::prelude::*;

verus! {

/// A successor table describes a functional graph when every entry names a
/// vertex of the table.
pub open spec fn is_functional(s: Seq<usize>) -> bool {
    forall|v: int| 0 <= v < s.len() ==> (#[trigger] s[v]) < s.len()
}

/// The vertex reached from `v` by following `k` edges.
pub open spec fn walk(s: Seq<usize>, v: int, k: nat) -> int
    decreases k,
{
    if k == 0 {
        v
    } else {
        s[walk(s, v, (k - 1) as nat)] as int
    }
}

/// `v` lies on a cycle: following one or more edges leads back to it.
pub open spec fn on_cycle(s: Seq<usize>, v: int) -> bool {
    exists|k: nat| k >= 1 && #[trigger] walk(s, v, k) == v
}

/// `t` is the number of edges from `v` to the first vertex that lies on a
/// cycle.
pub open spec fn is_tail_len(s: Seq<usize>, v: int, t: nat) -> bool {
    &&& on_cycle(s, walk(s, v, t))
    &&& forall|j: nat| j < t ==> !on_cycle(s, #[trigger] walk(s, v, j))
}

/// `len` is the number of vertices of the cycle through `c`: the least
/// positive number of edges that lead from `c` back to `c`.
pub open spec fn is_cycle_len(s: Seq<usize>, c: int, len: nat) -> bool {
    &&& len >= 1
    &&& walk(s, c, len) == c
    &&& forall|j: nat| 1 <= j < len ==> #[trigger] walk(s, c, j) != c
}

/// `r` is the least vertex among those reached from `c`.
pub open spec fn is_least_from(s: Seq<usize>, c: int, r: int) -> bool {
    &&& exists|j: nat| #[trigger] walk(s, c, j) == r
    &&& forall|j: nat| r <= #[trigger] walk(s, c, j)
}

/// The three facts that classify a vertex `v`: its distance `t` to its
/// cycle, and that cycle's length and least vertex.
pub open spec fn classifies(s: Seq<usize>, v: int, t: nat, len: nat, repr: int) -> bool {
    &&& is_tail_len(s, v, t)
    &&& is_cycle_len(s, walk(s, v, t), len)
    &&& is_least_from(s, walk(s, v, t), repr)
}

/// The number of edges from `v` to its cycle; 0 when `v` lies on it.
pub open spec fn tail_len(s: Seq<usize>, v: int) -> nat {
    choose|t: nat| is_tail_len(s, v, t)
}

/// The first vertex on a cycle that is reached from `v`.
pub open spec fn cycle_entry(s: Seq<usize>, v: int) -> int {
    walk(s, v, tail_len(s, v))
}

/// The number of vertices of the cycle that `v` leads to.
pub open spec fn cycle_len(s: Seq<usize>, v: int) -> nat {
    choose|len: nat| is_cycle_len(s, cycle_entry(s, v), len)
}

/// The representative of the cycle that `v` leads to: its least vertex.
pub open spec fn cycle_repr(s: Seq<usize>, v: int) -> int {
    choose|r: int| is_least_from(s, cycle_entry(s, v), r)
}

/// No edge enters `v`.
pub open spec fn is_source(s: Seq<usize>, v: int) -> bool {
    forall|u: int| 0 <= u < s.len() ==> #[trigger] s[u] != v
}

/// The sources among the vertices below `m`, in ascending order.
pub open spec fn sources_below(s: Seq<usize>, m: nat) -> Seq<usize>
    decreases m,
{
    if m == 0 {
        Seq::empty()
    } else if is_source(s, m - 1) {
        sources_below(s, (m - 1) as nat).push((m - 1) as usize)
    } else {
        sources_below(s, (m - 1) as nat)
    }
}

/// All sources of the graph, in ascending order.
pub open spec fn source_list(s: Seq<usize>) -> Seq<usize> {
    sources_below(s, s.len())
}

/// The representatives of the cycles that the vertices below `m` lead to,
/// each once, in the order in which those vertices first reach them.
pub open spec fn cycles_below(s: Seq<usize>, m: nat) -> Seq<usize>
    decreases m,
{
    if m == 0 {
        Seq::empty()
    } else {
        let found = cycles_below(s, (m - 1) as nat);
        let r = cycle_repr(s, m - 1) as usize;
        if found.contains(r) {
            found
        } else {
            found.push(r)
        }
    }
}

/// The representatives of all cycles of the graph, each once.  A cycle comes
/// before another when the least vertex that leads to it is smaller.
pub open spec fn cycle_list(s: Seq<usize>) -> Seq<usize> {
    cycles_below(s, s.len())
}

/// The number of the cycle that `v` leads to: the place of its
/// representative in `cycle_list`.
pub open spec fn cycle_index(s: Seq<usize>, v: int) -> int {
    choose|i: int| 0 <= i < cycle_list(s).len() && cycle_list(s)[i] == cycle_repr(s, v)
}

/// The lengths of the cycles that `reprs` names, added up.
pub open spec fn cycle_len_sum(s: Seq<usize>, reprs: Seq<usize>) -> nat
    decreases reprs.len(),
{
    if reprs.len() == 0 {
        0
    } else {
        cycle_len_sum(s, reprs.drop_last()) + cycle_len(s, reprs.last() as int)
    }
}

/// The vertices that lie on no cycle: those at a distance from their cycle.
pub open spec fn tail_vertices(s: Seq<usize>) -> Set<int> {
    Set::new(|v: int| 0 <= v < s.len() && tail_len(s, v) > 0)
}

/// The vertices that lie on a cycle.
pub open spec fn cycle_vertices(s: Seq<usize>) -> Set<int> {
    Set::new(|v: int| 0 <= v < s.len() && on_cycle(s, v))
}

} // verus!
