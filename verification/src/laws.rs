//! What holds of every functional graph, stated over the model and proved
//! from its definitions.

use vstd::prelude::*;
use crate::model::{
    classifies, cycle_entry, cycle_len, cycle_repr, is_functional, is_source, on_cycle,
    source_list, sources_below, tail_len, walk,
};
use crate::orbit::{
    lemma_classified, lemma_classifies_bound, lemma_classifies_unique, lemma_on_cycle_step,
    lemma_walk_add, lemma_walk_distinct, lemma_walk_in_range, lemma_walk_reduced,
    lemma_walk_shift,
};

verus! {

/// The successor of a classified vertex is classified with the same cycle,
/// one edge nearer to it unless the vertex lies on the cycle itself.
pub proof fn lemma_classifies_after(s: Seq<usize>, v: int, t: nat, len: nat, repr: int)
    requires
        classifies(s, v, t, len, repr),
    ensures
        classifies(
            s,
            s[v] as int,
            if t > 0 {
                (t - 1) as nat
            } else {
                0
            },
            len,
            repr,
        ),
{
    let u = s[v] as int;
    assert forall|j: nat| #[trigger] walk(s, u, j) == walk(s, v, j + 1) by {
        lemma_walk_shift(s, v, j);
    }
    if t > 0 {
        assert(walk(s, u, (t - 1) as nat) == walk(s, v, ((t - 1) as nat) + 1));
        assert forall|j: nat| j < t - 1 implies !on_cycle(s, #[trigger] walk(s, u, j)) by {
            assert(!on_cycle(s, walk(s, v, j + 1)));
        }
        assert(classifies(s, u, (t - 1) as nat, len, repr));
    } else {
        assert(walk(s, v, 0) == v);
        lemma_on_cycle_step(s, v);
        assert(walk(s, u, 0) == u);
        assert(walk(s, u, len) == u) by {
            assert(walk(s, v, len + 1) == s[walk(s, v, len)]);
        }
        assert forall|j: nat| 1 <= j < len implies #[trigger] walk(s, u, j) != u by {
            if walk(s, u, j) == u {
                // then `j` edges lead from `v` round to `v`
                lemma_walk_add(s, v, 1, (len - 1) as nat);
                assert(walk(s, v, 1) == s[walk(s, v, 0)]);
                assert(1 + (len - 1) as nat == len);
                lemma_walk_add(s, u, j, (len - 1) as nat);
                lemma_walk_shift(s, v, j + (len - 1) as nat);
                assert(j + (len - 1) as nat + 1 == len + j);
                lemma_walk_add(s, v, len, j);
                assert(walk(s, v, j) == v);
            }
        }
        let j0 = choose|j: nat| #[trigger] walk(s, v, j) == repr;
        if j0 >= 1 {
            assert(walk(s, u, (j0 - 1) as nat) == walk(s, v, ((j0 - 1) as nat) + 1));
        } else {
            assert(walk(s, u, (len - 1) as nat) == walk(s, v, ((len - 1) as nat) + 1));
        }
        assert forall|j: nat| repr <= #[trigger] walk(s, u, j) by {
            assert(repr <= walk(s, v, j + 1));
        }
        assert(classifies(s, u, 0, len, repr));
    }
}

/// Every vertex reached from `v` leads to the cycle that `v` leads to, and
/// lies on it exactly when `v` is at most as far from it as the walk is long.
pub proof fn lemma_walk_keeps_cycle(s: Seq<usize>, v: int, k: nat)
    requires
        is_functional(s),
        0 <= v < s.len(),
    ensures
        cycle_repr(s, walk(s, v, k)) == cycle_repr(s, v),
        cycle_len(s, walk(s, v, k)) == cycle_len(s, v),
        tail_len(s, walk(s, v, k)) == if k <= tail_len(s, v) {
            tail_len(s, v) - k
        } else {
            0
        },
        on_cycle(s, walk(s, v, k)) <==> k >= tail_len(s, v),
    decreases k,
{
    lemma_classified(s, v);
    if k > 0 {
        let w = walk(s, v, (k - 1) as nat);
        lemma_walk_keeps_cycle(s, v, (k - 1) as nat);
        lemma_walk_in_range(s, v, (k - 1) as nat);
        lemma_classified(s, w);
        lemma_classifies_after(s, w, tail_len(s, w), cycle_len(s, w), cycle_repr(s, w));
        lemma_classifies_unique(
            s,
            s[w] as int,
            if tail_len(s, w) > 0 {
                (tail_len(s, w) - 1) as nat
            } else {
                0
            },
            cycle_len(s, w),
            cycle_repr(s, w),
        );
    }
    let x = walk(s, v, k);
    lemma_walk_in_range(s, v, k);
    lemma_classified(s, x);
    assert(walk(s, x, 0) == x);
    if on_cycle(s, x) && tail_len(s, x) > 0 {
        assert(!on_cycle(s, walk(s, x, 0)));
    }
}

/// Every vertex belongs to exactly one cycle.  After `tail_len` edges the
/// walk from `v` is on a cycle and not before; from there `cycle_len` more
/// edges, and no fewer, lead back to the vertex where the cycle was
/// entered; and the successor of `v` leads to the same cycle.
pub proof fn lemma_one_cycle(s: Seq<usize>, v: int)
    requires
        is_functional(s),
        0 <= v < s.len(),
    ensures
        classifies(s, v, tail_len(s, v), cycle_len(s, v), cycle_repr(s, v)),
        on_cycle(s, cycle_entry(s, v)),
        cycle_len(s, v) >= 1,
        walk(s, v, tail_len(s, v) + cycle_len(s, v)) == cycle_entry(s, v),
        forall|j: nat|
            1 <= j < cycle_len(s, v) ==> #[trigger] walk(s, v, tail_len(s, v) + j) != cycle_entry(
                s,
                v,
            ),
        forall|k: nat| on_cycle(s, #[trigger] walk(s, v, k)) <==> k >= tail_len(s, v),
        tail_len(s, v) + cycle_len(s, v) <= s.len(),
        0 <= cycle_repr(s, v) < s.len(),
        cycle_repr(s, s[v] as int) == cycle_repr(s, v),
        cycle_len(s, s[v] as int) == cycle_len(s, v),
{
    lemma_classified(s, v);
    let t = tail_len(s, v);
    let len = cycle_len(s, v);
    let c = cycle_entry(s, v);
    lemma_classifies_bound(s, v, t, len, cycle_repr(s, v));
    lemma_walk_add(s, v, t, len);
    assert forall|j: nat| 1 <= j < len implies #[trigger] walk(s, v, t + j) != c by {
        lemma_walk_add(s, v, t, j);
    }
    assert forall|k: nat| on_cycle(s, #[trigger] walk(s, v, k)) <==> k >= t by {
        lemma_walk_keeps_cycle(s, v, k);
    }
    let j0 = choose|j: nat| #[trigger] walk(s, c, j) == cycle_repr(s, v);
    lemma_walk_in_range(s, v, t);
    lemma_walk_in_range(s, c, j0);
    lemma_walk_keeps_cycle(s, v, 1);
    assert(walk(s, v, 1) == s[walk(s, v, 0)]);
}

/// The representative of a cycle is the least of its vertices: it lies on
/// the cycle that `v` leads to, no vertex of that cycle is less, and it is
/// its own representative.
pub proof fn lemma_repr_is_least(s: Seq<usize>, v: int)
    requires
        is_functional(s),
        0 <= v < s.len(),
    ensures
        on_cycle(s, cycle_repr(s, v)),
        exists|j: nat| j >= tail_len(s, v) && #[trigger] walk(s, v, j) == cycle_repr(s, v),
        forall|j: nat| j >= tail_len(s, v) ==> cycle_repr(s, v) <= #[trigger] walk(s, v, j),
        on_cycle(s, v) ==> cycle_repr(s, v) <= v,
        cycle_repr(s, cycle_repr(s, v)) == cycle_repr(s, v),
        cycle_len(s, cycle_repr(s, v)) == cycle_len(s, v),
        tail_len(s, cycle_repr(s, v)) == 0,
{
    lemma_classified(s, v);
    let t = tail_len(s, v);
    let c = cycle_entry(s, v);
    let r = cycle_repr(s, v);
    let j0 = choose|j: nat| #[trigger] walk(s, c, j) == r;
    lemma_walk_add(s, v, t, j0);
    lemma_walk_keeps_cycle(s, v, t + j0);
    assert(walk(s, v, t + j0) == r);
    assert forall|j: nat| j >= t implies r <= #[trigger] walk(s, v, j) by {
        lemma_walk_add(s, v, t, (j - t) as nat);
        assert(t + (j - t) as nat == j);
        assert(r <= walk(s, c, (j - t) as nat));
    }
    if on_cycle(s, v) {
        lemma_walk_keeps_cycle(s, v, 0);
        assert(walk(s, v, 0) == v);
    }
}

/// The walk from `v` once round its cycle passes no vertex twice, and the
/// edge from its last vertex leads back to where the cycle was entered.
pub proof fn lemma_once_round(s: Seq<usize>, v: int)
    requires
        is_functional(s),
        0 <= v < s.len(),
    ensures
        forall|i: nat, j: nat|
            i < j < tail_len(s, v) + cycle_len(s, v) ==> #[trigger] walk(s, v, i)
                != #[trigger] walk(s, v, j),
        s[walk(s, v, (tail_len(s, v) + cycle_len(s, v) - 1) as nat)] == cycle_entry(s, v),
{
    lemma_one_cycle(s, v);
    let t = tail_len(s, v);
    let len = cycle_len(s, v);
    assert forall|i: nat, j: nat| i < j < t + len implies #[trigger] walk(s, v, i)
        != #[trigger] walk(s, v, j) by {
        lemma_walk_distinct(s, v, t, len, cycle_repr(s, v), i, j);
    }
    assert(walk(s, v, t + len) == s[walk(s, v, (t + len - 1) as nat)]);
}

/// Walking `k` edges and walking the reduced number of edges end at the
/// same vertex: beyond the distance to the cycle, only the remainder of the
/// division by the cycle's length counts.  The reduced number is less than
/// the number of vertices.
pub proof fn lemma_kth_reduced(s: Seq<usize>, v: int, k: nat)
    requires
        is_functional(s),
        0 <= v < s.len(),
        k >= tail_len(s, v),
    ensures
        walk(s, v, k) == walk(
            s,
            v,
            (tail_len(s, v) + (k - tail_len(s, v)) % (cycle_len(s, v) as int)) as nat,
        ),
        tail_len(s, v) + (k - tail_len(s, v)) % (cycle_len(s, v) as int) < tail_len(s, v)
            + cycle_len(s, v) <= s.len(),
        tail_len(s, v) + (k - tail_len(s, v)) % (cycle_len(s, v) as int) <= k,
{
    lemma_one_cycle(s, v);
    lemma_walk_reduced(s, v, tail_len(s, v), cycle_len(s, v), k);
    vstd::arithmetic::div_mod::lemma_mod_pos_bound(
        k - tail_len(s, v),
        cycle_len(s, v) as int,
    );
}

/// The sources among the vertices below `m` are listed in ascending order,
/// each once, and nothing else is.
pub proof fn lemma_sources_below(s: Seq<usize>, m: nat)
    requires
        m <= usize::MAX,
    ensures
        forall|i: int|
            0 <= i < sources_below(s, m).len() ==> (#[trigger] sources_below(s, m)[i]) < m
                && is_source(s, sources_below(s, m)[i] as int),
        forall|i: int, j: int|
            0 <= i < j < sources_below(s, m).len() ==> sources_below(s, m)[i] < sources_below(
                s,
                m,
            )[j],
        forall|v: int|
            0 <= v < m && is_source(s, v) ==> sources_below(s, m).contains(v as usize),
    decreases m,
{
    if m > 0 {
        let prev = sources_below(s, (m - 1) as nat);
        let now = sources_below(s, m);
        lemma_sources_below(s, (m - 1) as nat);
        assert forall|v: int| 0 <= v < m && is_source(s, v) implies now.contains(v as usize) by {
            if v < m - 1 {
                let i = choose|i: int| 0 <= i < prev.len() && prev[i] == v as usize;
                assert(now[i] == v as usize);
            } else {
                assert(now[now.len() - 1] == v as usize);
            }
        }
    }
}

/// A vertex is a source exactly when no edge enters it, that is when it is
/// no entry of the successor table; the list of sources holds exactly the
/// sources, in ascending order.
pub proof fn lemma_sources(s: Seq<usize>)
    requires
        s.len() <= usize::MAX,
    ensures
        forall|v: int|
            is_source(s, v) <==> !exists|u: int| 0 <= u < s.len() && #[trigger] s[u] == v,
        forall|v: usize|
            source_list(s).contains(v) <==> v < s.len() && is_source(s, v as int),
        forall|i: int, j: int|
            0 <= i < j < source_list(s).len() ==> source_list(s)[i] < source_list(s)[j],
{
    lemma_sources_below(s, s.len());
    assert forall|v: usize| source_list(s).contains(v) <==> v < s.len() && is_source(
        s,
        v as int,
    ) by {
        if source_list(s).contains(v) {
            let i = choose|i: int| 0 <= i < source_list(s).len() && source_list(s)[i] == v;
            assert(sources_below(s, s.len())[i] < s.len());
        }
        if v < s.len() && is_source(s, v as int) {
            assert(source_list(s).contains((v as int) as usize));
        }
    }
}

} // verus!
