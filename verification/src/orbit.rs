//! Facts about walks along the edges of a functional graph.

use vstd::prelude::*;
use vstd::set_lib::{lemma_int_range, lemma_len_subset, set_int_range};
use crate::model::{
    classifies, cycle_entry, cycle_len, cycle_repr, is_cycle_len, is_functional, is_least_from,
    is_tail_len, on_cycle, tail_len, walk,
};

verus! {

/// A walk that starts at a vertex stays among the vertices.
pub proof fn lemma_walk_in_range(s: Seq<usize>, v: int, k: nat)
    requires
        is_functional(s),
        0 <= v < s.len(),
    ensures
        0 <= walk(s, v, k) < s.len(),
    decreases k,
{
    if k > 0 {
        lemma_walk_in_range(s, v, (k - 1) as nat);
    }
}

/// Walking `a + b` edges is walking `a` edges and then `b` more.
pub proof fn lemma_walk_add(s: Seq<usize>, v: int, a: nat, b: nat)
    ensures
        walk(s, v, a + b) == walk(s, walk(s, v, a), b),
    decreases b,
{
    if b > 0 {
        lemma_walk_add(s, v, a, (b - 1) as nat);
        assert((a + b - 1) as nat == a + (b - 1) as nat);
    }
}

/// Walking `k + 1` edges from `v` is walking `k` edges from its successor.
pub proof fn lemma_walk_shift(s: Seq<usize>, v: int, k: nat)
    ensures
        walk(s, v, k + 1) == walk(s, s[v] as int, k),
{
    lemma_walk_add(s, v, 1, k);
    assert(walk(s, v, 1) == s[walk(s, v, 0)] as int);
    assert(1 + k == k + 1);
}

/// From a vertex that a walk of `p` edges returns to, walks of `j` and of
/// `j % p` edges end at the same vertex.
pub proof fn lemma_walk_mod(s: Seq<usize>, c: int, p: nat, j: nat)
    requires
        p >= 1,
        walk(s, c, p) == c,
    ensures
        walk(s, c, j) == walk(s, c, j % p),
    decreases j,
{
    if j >= p {
        lemma_walk_add(s, c, p, (j - p) as nat);
        assert(p + (j - p) as nat == j);
        lemma_walk_mod(s, c, p, (j - p) as nat);
        assert((j - p) % (p as int) == j % p) by (nonlinear_arith)
            requires
                j >= p,
                p >= 1,
        ;
    } else {
        assert(j % p == j) by (nonlinear_arith)
            requires
                j < p,
        ;
    }
}

/// Where `len` edges lead from the vertex `t` edges after `v` back to it, a
/// walk of `k >= t` edges from `v` ends where the walk of
/// `t + (k - t) % len` edges ends, which is no longer.
pub proof fn lemma_walk_reduced(s: Seq<usize>, v: int, t: nat, len: nat, k: nat)
    requires
        len >= 1,
        walk(s, v, t + len) == walk(s, v, t),
        k >= t,
    ensures
        (k - t) % (len as int) <= k - t,
        walk(s, v, k) == walk(s, v, (t + (k - t) % (len as int)) as nat),
{
    let c = walk(s, v, t);
    let over = (k - t) as nat;
    lemma_walk_add(s, v, t, len);
    lemma_walk_mod(s, c, len, over);
    lemma_walk_add(s, v, t, over);
    lemma_walk_add(s, v, t, over % len);
    vstd::arithmetic::div_mod::lemma_mod_decreases(over, len);
}

/// The successor of a vertex on a cycle lies on a cycle.
pub proof fn lemma_on_cycle_step(s: Seq<usize>, v: int)
    requires
        on_cycle(s, v),
    ensures
        on_cycle(s, s[v] as int),
{
    let k = choose|k: nat| k >= 1 && #[trigger] walk(s, v, k) == v;
    lemma_walk_shift(s, v, k);
    assert(walk(s, v, k + 1) == s[walk(s, v, k)] as int);
    assert(walk(s, s[v] as int, k) == s[v] as int);
}

/// A vertex has at most one classification, so one that holds gives the
/// values of `tail_len`, `cycle_len` and `cycle_repr`.
pub proof fn lemma_classifies_unique(s: Seq<usize>, v: int, t: nat, len: nat, repr: int)
    requires
        classifies(s, v, t, len, repr),
    ensures
        tail_len(s, v) == t,
        cycle_entry(s, v) == walk(s, v, t),
        cycle_len(s, v) == len,
        cycle_repr(s, v) == repr,
{
    let t2 = tail_len(s, v);
    assert(is_tail_len(s, v, t2));
    assert(t2 == t) by {
        if t2 < t {
            assert(!on_cycle(s, walk(s, v, t2)));
        }
        if t < t2 {
            assert(!on_cycle(s, walk(s, v, t)));
        }
    }
    let c = walk(s, v, t);
    let len2 = cycle_len(s, v);
    assert(is_cycle_len(s, c, len2));
    assert(len2 == len) by {
        if len2 < len {
            assert(walk(s, c, len2) != c);
        }
        if len < len2 {
            assert(walk(s, c, len) != c);
        }
    }
    let r2 = cycle_repr(s, v);
    assert(is_least_from(s, c, r2));
    let j1 = choose|j: nat| #[trigger] walk(s, c, j) == repr;
    let j2 = choose|j: nat| #[trigger] walk(s, c, j) == r2;
    assert(r2 <= walk(s, c, j1));
    assert(repr <= walk(s, c, j2));
}

/// A vertex whose successor has been classified, and which lies on no cycle
/// itself, is one edge further from the same cycle.
pub proof fn lemma_classifies_before(s: Seq<usize>, v: int, t: nat, len: nat, repr: int)
    requires
        classifies(s, s[v] as int, t, len, repr),
        !on_cycle(s, v),
    ensures
        classifies(s, v, t + 1, len, repr),
{
    let u = s[v] as int;
    lemma_walk_shift(s, v, t);
    assert forall|j: nat| j < t + 1 implies !on_cycle(s, #[trigger] walk(s, v, j)) by {
        if j > 0 {
            lemma_walk_shift(s, v, (j - 1) as nat);
            assert(((j - 1) as nat) + 1 == j);
            assert(walk(s, v, j) == walk(s, u, (j - 1) as nat));
        }
    }
}

/// A walk that starts inside a set of vertices that contains the successor
/// of each of its members never leaves the set.
pub proof fn lemma_walk_stays(s: Seq<usize>, inside: Set<int>, v: int, k: nat)
    requires
        forall|x: int| inside.contains(x) ==> inside.contains(#[trigger] s[x] as int),
        inside.contains(v),
    ensures
        inside.contains(walk(s, v, k)),
    decreases k,
{
    if k > 0 {
        lemma_walk_stays(s, inside, v, (k - 1) as nat);
    }
}

/// A vertex outside such a set whose successor is inside it lies on no
/// cycle: no walk leads back to it.
pub proof fn lemma_entering_is_off_cycle(s: Seq<usize>, inside: Set<int>, v: int)
    requires
        forall|x: int| inside.contains(x) ==> inside.contains(#[trigger] s[x] as int),
        inside.contains(s[v] as int),
        !inside.contains(v),
    ensures
        !on_cycle(s, v),
{
    assert forall|k: nat| k >= 1 implies #[trigger] walk(s, v, k) != v by {
        lemma_walk_shift(s, v, (k - 1) as nat);
        assert(((k - 1) as nat) + 1 == k);
        lemma_walk_stays(s, inside, s[v] as int, (k - 1) as nat);
    }
}

/// The vertices of `ring`, in this order, form a cycle of the graph: each
/// is followed by the next and the last by the first, and none occurs twice.
pub open spec fn is_ring(s: Seq<usize>, ring: Seq<usize>) -> bool {
    &&& ring.len() >= 1
    &&& ring.no_duplicates()
    &&& forall|j: int| 0 <= j < ring.len() ==> (#[trigger] ring[j]) < s.len()
    &&& forall|j: int| 0 <= j < ring.len() - 1 ==> #[trigger] s[ring[j] as int] == ring[j + 1]
    &&& s[ring.last() as int] == ring[0]
}

/// A walk from the member at index `a` of a ring that does not pass the
/// ring's last member ends `k` members further on.
pub proof fn lemma_ring_walk(s: Seq<usize>, ring: Seq<usize>, a: int, k: nat)
    requires
        is_ring(s, ring),
        0 <= a,
        a + k < ring.len(),
    ensures
        walk(s, ring[a] as int, k) == ring[a + k],
    decreases k,
{
    if k > 0 {
        lemma_ring_walk(s, ring, a, (k - 1) as nat);
        assert(s[ring[a + k - 1] as int] == ring[a + k - 1 + 1]);
    }
}

/// A walk from the member at index `a` of a ring to the member at index
/// `b` takes `b - a` edges, or goes round by the ring's first member.
pub proof fn lemma_ring_reaches(s: Seq<usize>, ring: Seq<usize>, a: int, b: int) -> (k: nat)
    requires
        is_ring(s, ring),
        0 <= a < ring.len(),
        0 <= b < ring.len(),
    ensures
        walk(s, ring[a] as int, k) == ring[b],
        a < b ==> k == b - a,
        b <= a ==> k == ring.len() - a + b,
{
    if a < b {
        lemma_ring_walk(s, ring, a, (b - a) as nat);
        (b - a) as nat
    } else {
        let up = (ring.len() - 1 - a) as nat;
        lemma_ring_walk(s, ring, a, up);
        lemma_walk_add(s, ring[a] as int, up, 1);
        assert(walk(s, ring.last() as int, 1) == s[walk(s, ring.last() as int, 0)]);
        lemma_ring_walk(s, ring, 0, b as nat);
        lemma_walk_add(s, ring[a] as int, up + 1, b as nat);
        (up + 1 + b) as nat
    }
}

/// Every member of a ring lies on the cycle that the ring describes: its
/// distance to the cycle is 0, the cycle's length is the ring's, and the
/// cycle's least vertex is the ring's least member.
pub proof fn lemma_ring_classifies(s: Seq<usize>, ring: Seq<usize>, a: int, least: int)
    requires
        is_ring(s, ring),
        0 <= a < ring.len(),
        0 <= least < ring.len(),
        forall|j: int| 0 <= j < ring.len() ==> ring[least] <= #[trigger] ring[j],
    ensures
        classifies(s, ring[a] as int, 0, ring.len(), ring[least] as int),
{
    let v = ring[a] as int;
    let round = lemma_ring_reaches(s, ring, a, a);
    assert(walk(s, v, ring.len()) == v);
    assert(on_cycle(s, v));
    assert(walk(s, v, 0) == v);
    assert forall|j: nat| 1 <= j < ring.len() implies #[trigger] walk(s, v, j) != v by {
        if a + j < ring.len() {
            let k = lemma_ring_reaches(s, ring, a, a + j);
        } else {
            let k = lemma_ring_reaches(s, ring, a, a + j - ring.len());
        }
    }
    let back = lemma_ring_reaches(s, ring, a, least);
    let members = Set::new(|x: int| exists|j: int| 0 <= j < ring.len() && #[trigger] ring[j] == x);
    assert forall|x: int| members.contains(x) implies members.contains(#[trigger] s[x] as int) by {
        let j = choose|j: int| 0 <= j < ring.len() && #[trigger] ring[j] == x;
        if j < ring.len() - 1 {
            assert(ring[j + 1] == s[x]);
        } else {
            assert(ring[0] == s[x]);
        }
    }
    assert(members.contains(v));
    assert forall|j: nat| ring[least] <= #[trigger] walk(s, v, j) by {
        lemma_walk_stays(s, members, v, j);
    }
}

/// Distinct numbers below `n` are at most `n`.
pub proof fn lemma_distinct_below(q: Seq<int>, n: nat)
    requires
        q.no_duplicates(),
        forall|j: int| 0 <= j < q.len() ==> 0 <= #[trigger] q[j] < n,
    ensures
        q.len() <= n,
{
    q.unique_seq_to_set();
    lemma_int_range(0, n as int);
    let all = set_int_range(0, n as int);
    assert(q.to_set().subset_of(all)) by {
        assert forall|x: int| q.to_set().contains(x) implies all.contains(x) by {
            let j = choose|j: int| 0 <= j < q.len() && q[j] == x;
            assert(0 <= q[j] < n);
        }
    }
    lemma_len_subset(q.to_set(), all);
}

/// Distinct vertices are at most as many as the graph has vertices.
pub proof fn lemma_distinct_vertices(q: Seq<usize>, n: nat)
    requires
        q.no_duplicates(),
        forall|j: int| 0 <= j < q.len() ==> (#[trigger] q[j]) < n,
    ensures
        q.len() <= n,
{
    let qi = Seq::new(q.len(), |j: int| q[j] as int);
    assert forall|j: int| 0 <= j < qi.len() implies 0 <= #[trigger] qi[j] < n by {
        assert(q[j] < n);
    }
    lemma_distinct_below(qi, n);
}

/// The first `t + len` vertices of the walk from a classified vertex are
/// pairwise distinct.
pub proof fn lemma_walk_distinct(
    s: Seq<usize>,
    v: int,
    t: nat,
    len: nat,
    repr: int,
    a: nat,
    b: nat,
)
    requires
        classifies(s, v, t, len, repr),
        a < b < t + len,
    ensures
        walk(s, v, a) != walk(s, v, b),
{
    if walk(s, v, a) == walk(s, v, b) {
        let x = walk(s, v, a);
        let d = (b - a) as nat;
        lemma_walk_add(s, v, a, d);
        assert(a + d == b);
        assert(walk(s, x, d) == x);
        assert(on_cycle(s, x));
        assert(a >= t);
        let c = walk(s, v, t);
        lemma_walk_add(s, v, t, (a - t) as nat);
        assert(t + (a - t) as nat == a);
        // x is the vertex (a - t) edges after c, and d edges lead from x to x
        let rest = (len - (a - t)) as nat;
        lemma_walk_add(s, c, (a - t) as nat, rest);
        assert((a - t) as nat + rest == len);
        assert(walk(s, x, rest) == c);
        // so from c: (a - t) edges to x, d edges round to x, rest edges to c
        lemma_walk_mod(s, x, d, rest);
        let less = rest % d;
        assert(walk(s, x, less) == c);
        lemma_walk_add(s, c, (a - t) as nat, less);
        let short = (a - t) as nat + less;
        assert(walk(s, c, short) == c);
        assert(less < d) by (nonlinear_arith)
            requires
                less == rest % d,
                d >= 1,
        ;
        assert(1 <= short < len) by {
            assert(less <= rest) by (nonlinear_arith)
                requires
                    less == rest % d,
                    d >= 1,
            ;
            if short == 0 {
                assert(a == t && less == 0);
                assert(rest == len);
                // then d divides len while d < len, and x == c
                assert(walk(s, c, d) == c);
                assert(1 <= d < len);
                assert(walk(s, c, d) != c);
            }
            if short >= len {
                assert(less == rest);
                assert(rest < d);
                assert(b < t + len);
            }
        }
        assert(walk(s, c, short) != c);
    }
}

/// A vertex's distance to its cycle and the cycle's length together are at
/// most the number of vertices.
pub proof fn lemma_classifies_bound(s: Seq<usize>, v: int, t: nat, len: nat, repr: int)
    requires
        is_functional(s),
        0 <= v < s.len(),
        classifies(s, v, t, len, repr),
    ensures
        t + len <= s.len(),
{
    let q = Seq::new(t + len, |j: int| walk(s, v, j as nat));
    assert forall|j: int| 0 <= j < q.len() implies 0 <= #[trigger] q[j] < s.len() by {
        lemma_walk_in_range(s, v, j as nat);
    }
    assert forall|i: int, j: int| 0 <= i < q.len() && 0 <= j < q.len() && i != j implies q[i]
        != q[j] by {
        if i < j {
            lemma_walk_distinct(s, v, t, len, repr, i as nat, j as nat);
        } else {
            lemma_walk_distinct(s, v, t, len, repr, j as nat, i as nat);
        }
    }
    lemma_distinct_below(q, s.len());
}

/// Among the natural numbers with a property that some number has, one is
/// the least.
pub proof fn lemma_least_nat(p: spec_fn(nat) -> bool, k: nat) -> (m: nat)
    requires
        p(k),
    ensures
        m <= k,
        p(m),
        forall|j: nat| j < m ==> !#[trigger] p(j),
    decreases k,
{
    if exists|j: nat| j < k && #[trigger] p(j) {
        let j = choose|j: nat| j < k && #[trigger] p(j);
        lemma_least_nat(p, j)
    } else {
        k
    }
}

/// A walk of as many edges as the graph has vertices passes some vertex
/// twice.
pub proof fn lemma_walk_repeats(s: Seq<usize>, v: int) -> (r: (nat, nat))
    requires
        is_functional(s),
        0 <= v < s.len(),
    ensures
        r.0 < r.1 <= s.len(),
        walk(s, v, r.0) == walk(s, v, r.1),
{
    let q = Seq::new(s.len() + 1, |j: int| walk(s, v, j as nat));
    assert forall|j: int| 0 <= j < q.len() implies 0 <= #[trigger] q[j] < s.len() by {
        lemma_walk_in_range(s, v, j as nat);
    }
    if q.no_duplicates() {
        lemma_distinct_below(q, s.len());
    }
    let (i, j) = choose|i: int, j: int|
        0 <= i < q.len() && 0 <= j < q.len() && i != j && q[i] == q[j];
    if i < j {
        (i as nat, j as nat)
    } else {
        (j as nat, i as nat)
    }
}

/// Every vertex of a functional graph is classified: it has a distance to
/// a cycle, and that cycle has a length and a least vertex.
pub proof fn lemma_classified(s: Seq<usize>, v: int)
    requires
        is_functional(s),
        0 <= v < s.len(),
    ensures
        classifies(s, v, tail_len(s, v), cycle_len(s, v), cycle_repr(s, v)),
{
    // Where the walk from v repeats a vertex, that vertex lies on a cycle.
    let (a, b) = lemma_walk_repeats(s, v);
    lemma_walk_add(s, v, a, (b - a) as nat);
    assert(a + (b - a) as nat == b);
    assert(walk(s, walk(s, v, a), (b - a) as nat) == walk(s, v, a));
    assert(on_cycle(s, walk(s, v, a)));
    let reached = |t: nat| on_cycle(s, walk(s, v, t));
    let t = lemma_least_nat(reached, a);
    assert forall|j: nat| j < t implies !on_cycle(s, #[trigger] walk(s, v, j)) by {
        assert(!reached(j));
    }
    assert(is_tail_len(s, v, t));
    assert(is_tail_len(s, v, tail_len(s, v)));

    // The least number of edges that lead round the cycle is its length.
    let c = cycle_entry(s, v);
    let k = choose|k: nat| k >= 1 && #[trigger] walk(s, c, k) == c;
    let round = |p: nat| p >= 1 && walk(s, c, p) == c;
    let len = lemma_least_nat(round, k);
    assert forall|j: nat| 1 <= j < len implies #[trigger] walk(s, c, j) != c by {
        assert(!round(j));
    }
    assert(is_cycle_len(s, c, len));
    assert(is_cycle_len(s, c, cycle_len(s, v)));

    // The least vertex that the walk from the cycle reaches.
    lemma_walk_in_range(s, v, tail_len(s, v));
    assert(walk(s, c, 0) == c);
    let met = |r: nat| exists|j: nat| #[trigger] walk(s, c, j) == r;
    let r = lemma_least_nat(met, c as nat);
    assert forall|j: nat| r <= #[trigger] walk(s, c, j) by {
        lemma_walk_in_range(s, c, j);
        if walk(s, c, j) < r {
            let x = walk(s, c, j) as nat;
            assert(walk(s, c, j) == x);
            assert(met(x));
        }
    }
    assert(is_least_from(s, c, r as int));
    assert(is_least_from(s, c, cycle_repr(s, v)));
}

} // verus!
