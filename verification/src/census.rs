//! Counting the vertices of a functional graph: those on the cycles and
//! those on the tails are all there are.

use vstd::prelude::*;
use vstd::set_lib::{lemma_int_range, lemma_set_disjoint_lens, set_int_range};
use crate::laws::{lemma_repr_is_least, lemma_walk_keeps_cycle};
use crate::model::{
    cycle_entry, cycle_len, cycle_len_sum, cycle_list, cycle_repr, cycle_vertices, cycles_below,
    is_functional, on_cycle, tail_len, tail_vertices, walk,
};
use crate::orbit::{
    lemma_classified, lemma_walk_add, lemma_walk_distinct, lemma_walk_in_range, lemma_walk_mod,
};

verus! {

/// The vertices of the cycle with representative `r`.
pub open spec fn cycle_members(s: Seq<usize>, r: int) -> Set<int> {
    Set::new(|x: int| 0 <= x < s.len() && on_cycle(s, x) && cycle_repr(s, x) == r)
}

/// The vertices of the cycles that the vertices below `m` lead to.
pub open spec fn members_below(s: Seq<usize>, m: nat) -> Set<int> {
    Set::new(
        |x: int|
            0 <= x < s.len() && on_cycle(s, x) && cycles_below(s, m).contains(
                cycle_repr(s, x) as usize,
            ),
    )
}

/// Going round its cycle any number of times leads a vertex back to itself.
proof fn lemma_rounds(s: Seq<usize>, x: int, len: nat, times: nat)
    requires
        len >= 1,
        walk(s, x, len) == x,
    ensures
        walk(s, x, times * len) == x,
{
    lemma_walk_mod(s, x, len, times * len);
    vstd::arithmetic::div_mod::lemma_mod_multiples_basic(times as int, len as int);
    assert(walk(s, x, 0) == x);
}

/// Every vertex of the cycle that `v` leads to is reached from the cycle's
/// entry by fewer edges than the cycle is long.
proof fn lemma_member_reached(s: Seq<usize>, v: int, x: int) -> (j: nat)
    requires
        is_functional(s),
        0 <= v < s.len(),
        cycle_members(s, cycle_repr(s, v)).contains(x),
    ensures
        j < cycle_len(s, v),
        walk(s, cycle_entry(s, v), j) == x,
{
    let r = cycle_repr(s, v);
    let c = cycle_entry(s, v);
    let len = cycle_len(s, v);
    lemma_classified(s, v);
    lemma_classified(s, x);
    // from x to r, and on round to x
    lemma_repr_is_least(s, x);
    lemma_walk_keeps_cycle(s, x, 0);
    assert(walk(s, x, 0) == x);
    let a = choose|j: nat| j >= tail_len(s, x) && #[trigger] walk(s, x, j) == r;
    let lx = cycle_len(s, x);
    lemma_rounds(s, x, lx, a + 1);
    let b = ((a + 1) * lx - a) as nat;
    assert((a + 1) * lx >= a + 1) by (nonlinear_arith)
        requires
            lx >= 1,
    ;
    lemma_walk_add(s, x, a, b);
    assert(a + b == (a + 1) * lx);
    assert(walk(s, r, b) == x);
    // from the entry to r
    let e = choose|j: nat| #[trigger] walk(s, c, j) == r;
    lemma_walk_add(s, c, e, b);
    lemma_walk_mod(s, c, len, e + b);
    vstd::arithmetic::div_mod::lemma_mod_pos_bound((e + b) as int, len as int);
    ((e + b) % len) as nat
}

/// A cycle has as many vertices as its length says.
proof fn lemma_cycle_size(s: Seq<usize>, v: int)
    requires
        is_functional(s),
        0 <= v < s.len(),
    ensures
        cycle_members(s, cycle_repr(s, v)).finite(),
        cycle_members(s, cycle_repr(s, v)).len() == cycle_len(s, v),
{
    let r = cycle_repr(s, v);
    let c = cycle_entry(s, v);
    let t = tail_len(s, v);
    let len = cycle_len(s, v);
    lemma_classified(s, v);
    lemma_walk_in_range(s, v, t);
    lemma_walk_keeps_cycle(s, v, t);
    lemma_classified(s, c);
    let q = Seq::new(len, |j: int| walk(s, c, j as nat));
    assert forall|i: int, j: int| 0 <= i < q.len() && 0 <= j < q.len() && i != j implies q[i]
        != q[j] by {
        if i < j {
            lemma_walk_distinct(s, c, 0, len, r, i as nat, j as nat);
        } else {
            lemma_walk_distinct(s, c, 0, len, r, j as nat, i as nat);
        }
    }
    q.unique_seq_to_set();
    vstd::seq_lib::seq_to_set_is_finite(q);
    let members = cycle_members(s, r);
    assert forall|x: int| q.to_set().contains(x) implies members.contains(x) by {
        let j = choose|j: int| 0 <= j < q.len() && q[j] == x;
        lemma_walk_in_range(s, c, j as nat);
        lemma_walk_keeps_cycle(s, c, j as nat);
    }
    assert forall|x: int| members.contains(x) implies q.to_set().contains(x) by {
        let j = lemma_member_reached(s, v, x);
        assert(q[j as int] == x);
    }
    assert(q.to_set() =~= members);
}

/// The representative of the cycle of every vertex below `m` is among the
/// cycles found below `m`, each of which is the representative of the cycle
/// of some vertex below `m`, and none is found twice.
pub proof fn lemma_cycles_below(s: Seq<usize>, m: nat)
    requires
        is_functional(s),
        m <= s.len() <= usize::MAX,
    ensures
        forall|x: int|
            0 <= x < m ==> cycles_below(s, m).contains(#[trigger] cycle_repr(s, x) as usize),
        forall|i: int|
            #![trigger cycles_below(s, m)[i]]
            0 <= i < cycles_below(s, m).len() ==> exists|x: int|
                0 <= x < m && #[trigger] cycle_repr(s, x) == cycles_below(s, m)[i],
        cycles_below(s, m).no_duplicates(),
    decreases m,
{
    if m > 0 {
        let found = cycles_below(s, (m - 1) as nat);
        let now = cycles_below(s, m);
        let r = cycle_repr(s, m - 1) as usize;
        lemma_cycles_below(s, (m - 1) as nat);
        lemma_classified(s, m - 1);
        crate::laws::lemma_one_cycle(s, m - 1);
        assert(r == cycle_repr(s, m - 1));
        assert forall|x: int| 0 <= x < m implies now.contains(
            #[trigger] cycle_repr(s, x) as usize,
        ) by {
            if x < m - 1 {
                let i = choose|i: int|
                    0 <= i < found.len() && found[i] == cycle_repr(s, x) as usize;
                assert(now[i] == cycle_repr(s, x) as usize);
            } else if found.contains(r) {
            } else {
                assert(now[now.len() - 1] == r);
            }
        }
        assert forall|i: int| #![trigger now[i]] 0 <= i < now.len() implies exists|x: int|
            0 <= x < m && #[trigger] cycle_repr(s, x) == now[i] by {
            if i < found.len() {
                let x = choose|x: int| 0 <= x < m - 1 && #[trigger] cycle_repr(s, x) == found[i];
                assert(cycle_repr(s, x) == now[i]);
            } else {
                assert(cycle_repr(s, m - 1) == now[i]);
            }
        }
    }
}

/// The cycles found below `m` have together as many vertices as their
/// lengths add up to.
proof fn lemma_members_below(s: Seq<usize>, m: nat)
    requires
        is_functional(s),
        m <= s.len() <= usize::MAX,
    ensures
        members_below(s, m).finite(),
        members_below(s, m).len() == cycle_len_sum(s, cycles_below(s, m)),
    decreases m,
{
    if m == 0 {
        assert(members_below(s, 0) =~= Set::empty());
    } else {
        let found = cycles_below(s, (m - 1) as nat);
        let r = cycle_repr(s, m - 1);
        lemma_members_below(s, (m - 1) as nat);
        crate::laws::lemma_one_cycle(s, m - 1);
        if found.contains(r as usize) {
            assert(members_below(s, m) =~= members_below(s, (m - 1) as nat));
        } else {
            let before = members_below(s, (m - 1) as nat);
            let ring = cycle_members(s, r);
            lemma_cycle_size(s, m - 1);
            lemma_repr_is_least(s, m - 1);
            assert(found.push(r as usize).drop_last() =~= found);
            assert(members_below(s, m) =~= before + ring) by {
                assert forall|x: int| members_below(s, m).contains(x) implies (before
                    + ring).contains(x) by {
                    let now = cycles_below(s, m);
                    let i = choose|i: int|
                        0 <= i < now.len() && now[i] == cycle_repr(s, x) as usize;
                    crate::laws::lemma_one_cycle(s, x);
                    if i < found.len() {
                        assert(found[i] == cycle_repr(s, x) as usize);
                    }
                }
                assert forall|x: int| (before + ring).contains(x) implies members_below(
                    s,
                    m,
                ).contains(x) by {
                    let now = cycles_below(s, m);
                    if before.contains(x) {
                        let i = choose|i: int|
                            0 <= i < found.len() && found[i] == cycle_repr(s, x) as usize;
                        assert(now[i] == cycle_repr(s, x) as usize);
                    } else {
                        assert(now[now.len() - 1] == r as usize);
                    }
                }
            }
            assert(before.disjoint(ring));
            lemma_set_disjoint_lens(before, ring);
        }
    }
}

/// The cycles and the tails cover the vertices: the lengths of all cycles
/// and the number of vertices that lie on no cycle add up to the number of
/// vertices.
pub proof fn lemma_cycles_and_tails_cover(s: Seq<usize>)
    requires
        is_functional(s),
        s.len() <= usize::MAX,
    ensures
        tail_vertices(s).finite(),
        cycle_vertices(s).finite(),
        cycle_vertices(s).len() == cycle_len_sum(s, cycle_list(s)),
        cycle_len_sum(s, cycle_list(s)) + tail_vertices(s).len() == s.len(),
{
    lemma_members_below(s, s.len());
    lemma_cycles_below(s, s.len());
    assert(cycle_vertices(s) =~= members_below(s, s.len()));
    let all = set_int_range(0, s.len() as int);
    lemma_int_range(0, s.len() as int);
    assert forall|x: int| 0 <= x < s.len() implies (on_cycle(s, x) <==> tail_len(s, x) == 0) by {
        lemma_walk_keeps_cycle(s, x, 0);
        assert(walk(s, x, 0) == x);
    }
    assert(tail_vertices(s).subset_of(all));
    vstd::set_lib::lemma_len_subset(tail_vertices(s), all);
    assert(cycle_vertices(s).disjoint(tail_vertices(s)));
    assert(cycle_vertices(s) + tail_vertices(s) =~= all);
    lemma_set_disjoint_lens(cycle_vertices(s), tail_vertices(s));
}

} // verus!
