//! The cycle classifier: one pass over the successor table that gives every
//! vertex its cycle and its distance to that cycle.

use vstd::prelude::*;
use crate::graph::FunctionalGraph;
use crate::model::{classifies, cycle_list, cycle_repr, cycles_below, is_functional};
use crate::orbit::{
    is_ring, lemma_classifies_before, lemma_classifies_bound, lemma_classifies_unique,
    lemma_distinct_vertices, lemma_entering_is_off_cycle, lemma_ring_classifies,
};

verus! {

/// How far the classifier has come with a vertex.
#[derive(Clone, Copy, Debug, PartialEq, Eq, Structural)]
pub enum State {
    /// Not reached yet.
    Unvisited,
    /// On the path that is being walked.
    Visiting,
    /// Classified: its cycle and its distance are recorded.
    Visited,
}

/// The tables classify every vertex: `tails[v]` is the distance of `v` to
/// its cycle, `ids[v]` numbers that cycle, and `reprs` and `lens` hold the
/// representative and the length of each cycle under its number.  Cycles are
/// numbered in the order of `cycle_list`.
pub open spec fn is_classification(
    s: Seq<usize>,
    reprs: Seq<usize>,
    lens: Seq<usize>,
    ids: Seq<usize>,
    tails: Seq<usize>,
) -> bool {
    &&& ids.len() == s.len()
    &&& tails.len() == s.len()
    &&& lens.len() == reprs.len()
    &&& reprs == cycle_list(s)
    &&& forall|v: int|
        0 <= v < s.len() ==> (#[trigger] ids[v]) < reprs.len() && classifies(
            s,
            v,
            tails[v] as nat,
            lens[ids[v] as int] as nat,
            reprs[ids[v] as int] as int,
        )
    &&& forall|i: int|
        0 <= i < reprs.len() ==> (#[trigger] reprs[i]) < s.len() && ids[reprs[i] as int] == i
}

/// The classification of `v` by machine integers; see `classifies`.
#[verifier::opaque]
spec fn sorted_out(s: Seq<usize>, v: int, t: usize, len: usize, repr: usize) -> bool {
    classifies(s, v, t as nat, len as nat, repr as int)
}

/// The tables hold the cycle of vertex `v` and its distance to it.
spec fn settled(
    s: Seq<usize>,
    reprs: Seq<usize>,
    lens: Seq<usize>,
    ids: Seq<usize>,
    tails: Seq<usize>,
    v: int,
) -> bool {
    &&& ids[v] < reprs.len()
    &&& sorted_out(s, v, tails[v], lens[ids[v] as int], reprs[ids[v] as int])
}

/// Vertex `x` is classified.
spec fn done(st: Seq<State>, x: int) -> bool {
    0 <= x < st.len() && st[x] == State::Visited
}

/// Vertex `x` is on the path that is being walked.
spec fn pending(st: Seq<State>, x: int) -> bool {
    0 <= x < st.len() && st[x] == State::Visiting
}

/// The representative of cycle `i` is classified as a vertex of cycle `i`.
spec fn anchored(st: Seq<State>, reprs: Seq<usize>, ids: Seq<usize>, i: int) -> bool {
    let r = reprs[i] as int;
    &&& r < st.len()
    &&& st[r] == State::Visited
    &&& ids[r] == i
}

/// The tables have the sizes that the graph asks for.
spec fn sized(
    s: Seq<usize>,
    st: Seq<State>,
    reprs: Seq<usize>,
    lens: Seq<usize>,
    ids: Seq<usize>,
    tails: Seq<usize>,
) -> bool {
    &&& is_functional(s)
    &&& s.len() <= usize::MAX
    &&& st.len() == s.len()
    &&& ids.len() == s.len()
    &&& tails.len() == s.len()
    &&& lens.len() == reprs.len()
}

/// What holds of the classified vertices between the steps: their
/// successors are classified, and their records are right.
#[verifier::opaque]
spec fn books_kept(
    s: Seq<usize>,
    st: Seq<State>,
    reprs: Seq<usize>,
    lens: Seq<usize>,
    ids: Seq<usize>,
    tails: Seq<usize>,
) -> bool {
    &&& forall|x: int| #[trigger] done(st, x) ==> st[s[x] as int] == State::Visited
    &&& forall|x: int| #[trigger] done(st, x) ==> settled(s, reprs, lens, ids, tails, x)
    &&& forall|i: int| 0 <= i < reprs.len() ==> #[trigger] anchored(st, reprs, ids, i)
}

/// The path that is being walked: its vertices are exactly those in state
/// `Visiting`, none occurs twice, and each is followed by its successor.
#[verifier::opaque]
spec fn is_trail(s: Seq<usize>, st: Seq<State>, path: Seq<usize>) -> bool {
    &&& path.no_duplicates()
    &&& forall|j: int|
        0 <= j < path.len() ==> (#[trigger] path[j]) < s.len() && st[path[j] as int]
            == State::Visiting
    &&& forall|j: int| 0 <= j < path.len() - 1 ==> #[trigger] s[path[j] as int] == path[j + 1]
    &&& forall|x: int| #[trigger]
        pending(st, x) ==> exists|j: int| 0 <= j < path.len() && #[trigger] path[j] == x
}

/// What holds while a new cycle is taken off the path `full`, whose last
/// vertex is followed by `end`: the vertices from index `from` on are off,
/// and marked as members of the cycle that is about to be recorded.
#[verifier::opaque]
spec fn closing(
    s: Seq<usize>,
    st: Seq<State>,
    reprs: Seq<usize>,
    lens: Seq<usize>,
    ids: Seq<usize>,
    tails: Seq<usize>,
    full: Seq<usize>,
    end: usize,
    from: int,
) -> bool {
    &&& 0 <= from <= full.len()
    &&& full.len() > 0
    &&& full.no_duplicates()
    &&& s[full.last() as int] == end
    &&& forall|j: int| 0 <= j < full.len() ==> (#[trigger] full[j]) < s.len()
    &&& forall|j: int| 0 <= j < full.len() - 1 ==> #[trigger] s[full[j] as int] == full[j + 1]
    &&& forall|j: int| 0 <= j < from ==> st[#[trigger] full[j] as int] == State::Visiting
    &&& forall|j: int|
        from <= j < full.len() ==> st[#[trigger] full[j] as int] == State::Visited
            && ids[full[j] as int] == reprs.len() && tails[full[j] as int] == 0
    &&& forall|x: int| #[trigger]
        pending(st, x) ==> exists|j: int| 0 <= j < full.len() && #[trigger] full[j] == x
    &&& forall|x: int| #[trigger]
        done(st, x) ==> st[s[x] as int] == State::Visited || s[x] == end
    &&& forall|x: int| #[trigger]
        done(st, x) ==> settled(s, reprs, lens, ids, tails, x) || exists|j: int|
            from <= j < full.len() && #[trigger] full[j] == x
    &&& forall|i: int| 0 <= i < reprs.len() ==> #[trigger] anchored(st, reprs, ids, i)
}

/// Before the first vertex is walked nothing is classified and no path is
/// open.
proof fn lemma_books_opened(s: Seq<usize>, st: Seq<State>, ids: Seq<usize>, tails: Seq<usize>)
    requires
        forall|x: int| 0 <= x < st.len() ==> #[trigger] st[x] == State::Unvisited,
    ensures
        books_kept(s, st, Seq::empty(), Seq::empty(), ids, tails),
        is_trail(s, st, Seq::empty()),
{
    reveal(books_kept);
    reveal(is_trail);
}

/// The record of a classified vertex names the representative of its cycle.
proof fn lemma_repr_recorded(
    s: Seq<usize>,
    st: Seq<State>,
    reprs: Seq<usize>,
    lens: Seq<usize>,
    ids: Seq<usize>,
    tails: Seq<usize>,
    v: int,
)
    requires
        books_kept(s, st, reprs, lens, ids, tails),
        0 <= v < st.len(),
        st[v] == State::Visited,
    ensures
        ids[v] < reprs.len(),
        cycle_repr(s, v) == reprs[ids[v] as int],
        reprs.contains(cycle_repr(s, v) as usize),
{
    reveal(books_kept);
    reveal(sorted_out);
    assert(done(st, v));
    let id = ids[v] as int;
    lemma_classifies_unique(s, v, tails[v] as nat, lens[id] as nat, reprs[id] as int);
}

/// No vertex is in state `Visiting` when the path is empty.
proof fn lemma_trail_empty(s: Seq<usize>, st: Seq<State>, path: Seq<usize>)
    requires
        is_trail(s, st, path),
        path.len() == 0,
    ensures
        forall|x: int| 0 <= x < st.len() ==> #[trigger] st[x] != State::Visiting,
{
    reveal(is_trail);
    assert forall|x: int| 0 <= x < st.len() implies #[trigger] st[x] != State::Visiting by {
        if st[x] == State::Visiting {
            assert(pending(st, x));
        }
    }
}

/// The last vertex of the path is a vertex in state `Visiting`.
proof fn lemma_trail_last(s: Seq<usize>, st: Seq<State>, path: Seq<usize>)
    requires
        is_trail(s, st, path),
        path.len() > 0,
    ensures
        path.last() < s.len(),
        st[path.last() as int] == State::Visiting,
{
    reveal(is_trail);
}

/// Marking the unvisited vertex `v` as walked and putting it at the end of
/// the path keeps the records and the path in order.
proof fn lemma_mark_visiting(
    s: Seq<usize>,
    st: Seq<State>,
    reprs: Seq<usize>,
    lens: Seq<usize>,
    ids: Seq<usize>,
    tails: Seq<usize>,
    path: Seq<usize>,
    v: int,
)
    requires
        sized(s, st, reprs, lens, ids, tails),
        books_kept(s, st, reprs, lens, ids, tails),
        is_trail(s, st, path),
        0 <= v < s.len(),
        st[v] == State::Unvisited,
        path.len() > 0 ==> s[path.last() as int] == v,
    ensures
        books_kept(s, st.update(v, State::Visiting), reprs, lens, ids, tails),
        is_trail(s, st.update(v, State::Visiting), path.push(v as usize)),
        path.len() < s.len(),
{
    reveal(books_kept);
    reveal(is_trail);
    let st2 = st.update(v, State::Visiting);
    let path2 = path.push(v as usize);
    assert forall|x: int| #[trigger] done(st2, x) implies st2[s[x] as int] == State::Visited
        && settled(s, reprs, lens, ids, tails, x) by {
        assert(done(st, x));
    }
    assert forall|i: int| 0 <= i < reprs.len() implies #[trigger] anchored(st2, reprs, ids, i) by {
        assert(anchored(st, reprs, ids, i));
    }
    assert forall|j: int| 0 <= j < path2.len() - 1 implies #[trigger] s[path2[j] as int] == path2[j
        + 1] by {
        if j < path.len() - 1 {
            assert(s[path[j] as int] == path[j + 1]);
        }
    }
    assert forall|x: int| #[trigger] pending(st2, x) implies exists|j: int|
        0 <= j < path2.len() && #[trigger] path2[j] == x by {
        if x == v {
            assert(path2[path.len() as int] == x);
        } else {
            assert(pending(st, x));
            let j = choose|j: int| 0 <= j < path.len() && #[trigger] path[j] == x;
            assert(path2[j] == x);
        }
    }
    assert(path2.no_duplicates()) by {
        assert forall|a: int, b: int|
            0 <= a < path2.len() && 0 <= b < path2.len() && a != b implies path2[a] != path2[b] by {
            if a < path.len() {
                assert(st[path[a] as int] == State::Visiting);
            }
            if b < path.len() {
                assert(st[path[b] as int] == State::Visiting);
            }
        }
    }
    lemma_distinct_vertices(path2, s.len());
}

/// Classifying the last vertex of the path, whose successor `nxt` is
/// classified with cycle `id` and distance `t`, keeps the records and the
/// path in order.  The distance recorded is `t + 1`.
proof fn lemma_mark_visited(
    s: Seq<usize>,
    st: Seq<State>,
    reprs: Seq<usize>,
    lens: Seq<usize>,
    ids: Seq<usize>,
    tails: Seq<usize>,
    path: Seq<usize>,
    nxt: int,
)
    requires
        sized(s, st, reprs, lens, ids, tails),
        books_kept(s, st, reprs, lens, ids, tails),
        is_trail(s, st, path),
        path.len() > 0,
        s[path.last() as int] == nxt,
        st[nxt] == State::Visited,
    ensures
        tails[nxt] + 1 <= s.len(),
        books_kept(
            s,
            st.update(path.last() as int, State::Visited),
            reprs,
            lens,
            ids.update(path.last() as int, ids[nxt]),
            tails.update(path.last() as int, (tails[nxt] + 1) as usize),
        ),
        is_trail(s, st.update(path.last() as int, State::Visited), path.drop_last()),
{
    reveal(books_kept);
    reveal(is_trail);
    let v = path.last() as int;
    let id = ids[nxt];
    let t = (tails[nxt] + 1) as usize;
    assert(path[path.len() - 1] == v);
    assert(done(st, nxt));
    assert(sorted_out(s, v, t, lens[id as int], reprs[id as int]) && tails[nxt] + 1 <= s.len()) by {
        reveal(sorted_out);
        let inside = Set::new(|x: int| done(st, x));
        assert forall|x: int| inside.contains(x) implies inside.contains(#[trigger] s[x] as int) by {
            assert(done(st, x));
        }
        lemma_entering_is_off_cycle(s, inside, v);
        lemma_classifies_before(
            s,
            v,
            tails[nxt] as nat,
            lens[id as int] as nat,
            reprs[id as int] as int,
        );
        lemma_classifies_bound(
            s,
            v,
            (tails[nxt] + 1) as nat,
            lens[id as int] as nat,
            reprs[id as int] as int,
        );
    }
    let st2 = st.update(v, State::Visited);
    let ids2 = ids.update(v, id);
    let tails2 = tails.update(v, t);
    let path2 = path.drop_last();
    assert forall|x: int| #[trigger] done(st2, x) implies st2[s[x] as int] == State::Visited
        && settled(s, reprs, lens, ids2, tails2, x) by {
        if x != v {
            assert(done(st, x));
        }
    }
    assert forall|i: int| 0 <= i < reprs.len() implies #[trigger] anchored(st2, reprs, ids2, i) by {
        assert(anchored(st, reprs, ids, i));
    }
    assert forall|j: int| 0 <= j < path2.len() - 1 implies #[trigger] s[path2[j] as int] == path2[j
        + 1] by {
        assert(s[path[j] as int] == path[j + 1]);
    }
    assert forall|x: int| #[trigger] pending(st2, x) implies exists|j: int|
        0 <= j < path2.len() && #[trigger] path2[j] == x by {
        assert(pending(st, x));
        let j = choose|j: int| 0 <= j < path.len() && #[trigger] path[j] == x;
        assert(path2[j] == x);
    }
}

/// A walk that has met a vertex of its own path has closed a cycle.  The
/// result is the index on the path of the vertex that was met.
proof fn lemma_closing_start(
    s: Seq<usize>,
    st: Seq<State>,
    reprs: Seq<usize>,
    lens: Seq<usize>,
    ids: Seq<usize>,
    tails: Seq<usize>,
    full: Seq<usize>,
    end: usize,
) -> (at: int)
    requires
        sized(s, st, reprs, lens, ids, tails),
        books_kept(s, st, reprs, lens, ids, tails),
        is_trail(s, st, full),
        end < s.len(),
        st[end as int] == State::Visiting,
        full.len() > 0 ==> s[full.last() as int] == end,
    ensures
        0 <= at < full.len(),
        full[at] == end,
        closing(s, st, reprs, lens, ids, tails, full, end, full.len() as int),
{
    reveal(books_kept);
    reveal(is_trail);
    reveal(closing);
    assert(pending(st, end as int));
    choose|j: int| 0 <= j < full.len() && #[trigger] full[j] == end
}

/// Taking the vertex at index `from - 1` off the path and marking it as a
/// member of the new cycle.
proof fn lemma_closing_step(
    s: Seq<usize>,
    st: Seq<State>,
    reprs: Seq<usize>,
    lens: Seq<usize>,
    ids: Seq<usize>,
    tails: Seq<usize>,
    full: Seq<usize>,
    end: usize,
    from: int,
    at: int,
    id: usize,
)
    requires
        sized(s, st, reprs, lens, ids, tails),
        closing(s, st, reprs, lens, ids, tails, full, end, from),
        0 <= at < from <= full.len(),
        full[at] == end,
        id == reprs.len(),
    ensures
        full[from - 1] < s.len(),
        full[from - 1] == end <==> from - 1 == at,
        closing(
            s,
            st.update(full[from - 1] as int, State::Visited),
            reprs,
            lens,
            ids.update(full[from - 1] as int, id),
            tails.update(full[from - 1] as int, 0),
            full,
            end,
            from - 1,
        ),
        forall|x: int|
            0 <= x < st.len() && #[trigger] st[x] == State::Visited ==> x != full[from - 1],
{
    reveal(closing);
    let k = from - 1;
    let v = full[k] as int;
    let st2 = st.update(v, State::Visited);
    let ids2 = ids.update(v, id);
    let tails2 = tails.update(v, 0);
    assert(full[k] < s.len());
    assert(st[full[k] as int] == State::Visiting);
    assert forall|j: int| 0 <= j < full.len() && j != k implies #[trigger] full[j] != v by {}
    assert forall|x: int| #[trigger] pending(st2, x) implies exists|j: int|
        0 <= j < full.len() && #[trigger] full[j] == x by {
        assert(pending(st, x));
    }
    assert forall|x: int| #[trigger] done(st2, x) implies st2[s[x] as int] == State::Visited
        || s[x] == end by {
        if x != v {
            assert(done(st, x));
        } else if k + 1 < full.len() {
            assert(s[full[k] as int] == full[k + 1]);
            assert(st[full[k + 1] as int] == State::Visited);
        }
    }
    assert forall|x: int| #[trigger] done(st2, x) implies settled(s, reprs, lens, ids2, tails2, x)
        || exists|j: int| k <= j < full.len() && #[trigger] full[j] == x by {
        if x == v {
            assert(full[k] == x);
        } else {
            assert(done(st, x));
            if !settled(s, reprs, lens, ids, tails, x) {
                let j = choose|j: int| from <= j < full.len() && #[trigger] full[j] == x;
                assert(full[j] == x);
            }
        }
    }
    assert forall|i: int| 0 <= i < reprs.len() implies #[trigger] anchored(st2, reprs, ids2, i) by {
        assert(anchored(st, reprs, ids, i));
    }
}

/// The vertices that were taken off the path form a ring.
proof fn lemma_closing_ring(
    s: Seq<usize>,
    st: Seq<State>,
    reprs: Seq<usize>,
    lens: Seq<usize>,
    ids: Seq<usize>,
    tails: Seq<usize>,
    full: Seq<usize>,
    end: usize,
    at: int,
)
    requires
        closing(s, st, reprs, lens, ids, tails, full, end, at),
        0 <= at < full.len(),
        full[at] == end,
    ensures
        is_ring(s, full.subrange(at, full.len() as int)),
{
    reveal(closing);
    let ring = full.subrange(at, full.len() as int);
    assert forall|j: int| 0 <= j < ring.len() - 1 implies #[trigger] s[ring[j] as int] == ring[j
        + 1] by {
        assert(s[full[at + j] as int] == full[at + j + 1]);
    }
    assert(ring.last() == full.last());
}

/// Every member of a ring is classified by it: it lies on a cycle with the
/// ring's length and the ring's least member for its representative.
proof fn lemma_ring_sorted(s: Seq<usize>, ring: Seq<usize>, least: int)
    requires
        is_functional(s),
        s.len() <= usize::MAX,
        is_ring(s, ring),
        0 <= least < ring.len(),
        forall|j: int| 0 <= j < ring.len() ==> ring[least] <= #[trigger] ring[j],
    ensures
        ring.len() <= s.len(),
        forall|a: int|
            0 <= a < ring.len() ==> sorted_out(
                s,
                #[trigger] ring[a] as int,
                0,
                ring.len() as usize,
                ring[least],
            ),
{
    lemma_ring_classifies(s, ring, 0, least);
    lemma_classifies_bound(s, ring[0] as int, 0, ring.len(), ring[least] as int);
    assert forall|a: int| 0 <= a < ring.len() implies sorted_out(
        s,
        #[trigger] ring[a] as int,
        0,
        ring.len() as usize,
        ring[least],
    ) by {
        lemma_ring_classifies(s, ring, a, least);
        reveal(sorted_out);
    }
}

/// Recording the cycle that was taken off the path: its vertices are those
/// from index `at` on, and the vertex at index `least` is the least of them.
proof fn lemma_closing_end(
    s: Seq<usize>,
    st: Seq<State>,
    reprs: Seq<usize>,
    lens: Seq<usize>,
    ids: Seq<usize>,
    tails: Seq<usize>,
    full: Seq<usize>,
    end: usize,
    at: int,
    least: int,
)
    requires
        sized(s, st, reprs, lens, ids, tails),
        closing(s, st, reprs, lens, ids, tails, full, end, at),
        0 <= at <= least < full.len(),
        full[at] == end,
        forall|j: int| at <= j < full.len() ==> full[least] <= #[trigger] full[j],
    ensures
        reprs.len() < s.len(),
        full.len() - at <= s.len(),
        books_kept(
            s,
            st,
            reprs.push(full[least]),
            lens.push((full.len() - at) as usize),
            ids,
            tails,
        ),
        !reprs.contains(full[least]),
        st[full[0] as int] == State::Visiting || ids[full[0] as int] == reprs.len(),
        st[end as int] == State::Visited,
        ids[end as int] == reprs.len(),
        tails[end as int] == 0,
{
    let ring = full.subrange(at, full.len() as int);
    let r = full[least];
    let len = (full.len() - at) as usize;
    let reprs2 = reprs.push(r);
    let lens2 = lens.push(len);
    assert(ring.len() <= s.len() && forall|j: int|
        at <= j < full.len() ==> sorted_out(s, #[trigger] full[j] as int, 0, len, r)) by {
        lemma_closing_ring(s, st, reprs, lens, ids, tails, full, end, at);
        assert(ring[least - at] == full[least]);
        assert forall|j: int| 0 <= j < ring.len() implies ring[least - at] <= #[trigger] ring[j] by {
            assert(ring[j] == full[at + j]);
        }
        lemma_ring_sorted(s, ring, least - at);
        assert forall|j: int| at <= j < full.len() implies sorted_out(
            s,
            #[trigger] full[j] as int,
            0,
            len,
            r,
        ) by {
            assert(ring[j - at] == full[j]);
        }
    }
    reveal(closing);
    reveal(books_kept);
    assert(st[full[at] as int] == State::Visited);
    assert(st[full[least] as int] == State::Visited);
    assert forall|x: int| #[trigger] done(st, x) implies settled(s, reprs2, lens2, ids, tails, x) by {
        if !settled(s, reprs, lens, ids, tails, x) {
            let j = choose|j: int| at <= j < full.len() && #[trigger] full[j] == x;
            assert(sorted_out(s, full[j] as int, 0, len, r));
        }
    }
    assert forall|i: int| 0 <= i < reprs2.len() implies #[trigger] anchored(st, reprs2, ids, i) by {
        if i < reprs.len() {
            assert(anchored(st, reprs, ids, i));
        }
    }
    assert(!reprs.contains(r)) by {
        assert forall|i: int| 0 <= i < reprs.len() implies reprs[i] != r by {
            assert(anchored(st, reprs, ids, i));
        }
    }
    assert(reprs2.len() <= s.len()) by {
        assert forall|a: int, b: int|
            0 <= a < reprs2.len() && 0 <= b < reprs2.len() && a != b implies reprs2[a]
            != reprs2[b] by {
            assert(anchored(st, reprs2, ids, a));
            assert(anchored(st, reprs2, ids, b));
        }
        assert forall|i: int| 0 <= i < reprs2.len() implies (#[trigger] reprs2[i]) < s.len() by {
            assert(anchored(st, reprs2, ids, i));
        }
        lemma_distinct_vertices(reprs2, s.len());
    }
}

/// What is left of the path when a cycle has been taken off it is a path
/// again, and its last vertex is followed by the vertex that was met.
proof fn lemma_closing_trail(
    s: Seq<usize>,
    st: Seq<State>,
    reprs: Seq<usize>,
    lens: Seq<usize>,
    ids: Seq<usize>,
    tails: Seq<usize>,
    full: Seq<usize>,
    end: usize,
    at: int,
)
    requires
        closing(s, st, reprs, lens, ids, tails, full, end, at),
        0 <= at < full.len(),
        full[at] == end,
    ensures
        is_trail(s, st, full.subrange(0, at)),
        at > 0 ==> s[full[at - 1] as int] == end,
{
    reveal(closing);
    reveal(is_trail);
    let path = full.subrange(0, at);
    assert forall|x: int| #[trigger] pending(st, x) implies exists|j: int|
        0 <= j < path.len() && #[trigger] path[j] == x by {
        let j = choose|j: int| 0 <= j < full.len() && #[trigger] full[j] == x;
        assert(j < at);
        assert(path[j] == x);
    }
    assert forall|j: int| 0 <= j < path.len() - 1 implies #[trigger] s[path[j] as int] == path[j
        + 1] by {
        assert(s[full[j] as int] == full[j + 1]);
    }
    if at > 0 {
        assert(s[full[at - 1] as int] == full[at - 1 + 1]);
    }
}

/// When every vertex is classified the tables are the classification of
/// the graph, but for the order of the cycles, which is shown apart.
proof fn lemma_books_closed(
    s: Seq<usize>,
    st: Seq<State>,
    reprs: Seq<usize>,
    lens: Seq<usize>,
    ids: Seq<usize>,
    tails: Seq<usize>,
)
    requires
        sized(s, st, reprs, lens, ids, tails),
        books_kept(s, st, reprs, lens, ids, tails),
        forall|x: int| 0 <= x < s.len() ==> #[trigger] st[x] == State::Visited,
    ensures
        forall|v: int|
            0 <= v < s.len() ==> (#[trigger] ids[v]) < reprs.len() && classifies(
                s,
                v,
                tails[v] as nat,
                lens[ids[v] as int] as nat,
                reprs[ids[v] as int] as int,
            ),
        forall|i: int|
            0 <= i < reprs.len() ==> (#[trigger] reprs[i]) < s.len() && ids[reprs[i] as int] == i,
{
    reveal(books_kept);
    reveal(sorted_out);
    assert forall|v: int| 0 <= v < s.len() implies (#[trigger] ids[v]) < reprs.len()
        && classifies(
        s,
        v,
        tails[v] as nat,
        lens[ids[v] as int] as nat,
        reprs[ids[v] as int] as int,
    ) by {
        assert(done(st, v));
        assert(settled(s, reprs, lens, ids, tails, v));
    }
    assert forall|i: int| 0 <= i < reprs.len() implies (#[trigger] reprs[i]) < s.len()
        && ids[reprs[i] as int] == i by {
        assert(anchored(st, reprs, ids, i));
    }
}

impl FunctionalGraph {
    /// Classifies every vertex of the graph with successor table `succs`.
    ///
    /// The vertices are taken in ascending order.  From each one that is not
    /// classified yet, the successors are followed until the walk meets its
    /// own path, which closes a new cycle, or a vertex that is classified
    /// already.  The path is then taken back vertex by vertex.
    pub(crate) fn init_cycles(n: usize, succs: &[usize]) -> (r: (
        Vec<usize>,
        Vec<usize>,
        Vec<usize>,
        Vec<usize>,
    ))
        requires
            succs@.len() == n,
            is_functional(succs@),
        ensures
            is_classification(succs@, r.0@, r.1@, r.2@, r.3@),
    {
        let ghost s = succs@;
        let mut cycle_reprs = Vec::<usize>::new();
        let mut cycle_lens = Vec::<usize>::new();
        let mut cycle_ids = vec![usize::MAX; n];
        let mut noncycle_lens = vec![usize::MAX; n];

        let mut cycle_id_nxt: usize = 0;
        let mut states = vec![State::Unvisited; n];
        proof {
            lemma_books_opened(s, states@, cycle_ids@, noncycle_lens@);
        }

        // Take the vertices in turn; from each unvisited one (`start`), follow
        // the path and classify what lies on it.
        for start in 0..n
            invariant
                s == succs@,
                s.len() == n,
                sized(s, states@, cycle_reprs@, cycle_lens@, cycle_ids@, noncycle_lens@),
                books_kept(s, states@, cycle_reprs@, cycle_lens@, cycle_ids@, noncycle_lens@),
                is_trail(s, states@, Seq::empty()),
                forall|x: int| 0 <= x < start ==> #[trigger] states[x] == State::Visited,
                cycle_reprs@ == cycles_below(s, start as nat),
                cycle_id_nxt == cycle_reprs.len(),
        {
            if states[start] != State::Unvisited {
                proof {
                    lemma_trail_empty(s, states@, Seq::empty());
                    lemma_repr_recorded(
                        s,
                        states@,
                        cycle_reprs@,
                        cycle_lens@,
                        cycle_ids@,
                        noncycle_lens@,
                        start as int,
                    );
                }
            } else {
                let ghost reprs0 = cycle_reprs@;

                // Record the path, marking its vertices as Visiting, until a
                // vertex that is not Unvisited is met: that vertex is `end`.
                let mut path = Vec::<usize>::new();
                let mut v = start;
                while states[v] == State::Unvisited
                    invariant
                        s == succs@,
                        s.len() == n,
                        v < n,
                        sized(s, states@, cycle_reprs@, cycle_lens@, cycle_ids@, noncycle_lens@),
                        books_kept(
                            s,
                            states@,
                            cycle_reprs@,
                            cycle_lens@,
                            cycle_ids@,
                            noncycle_lens@,
                        ),
                        is_trail(s, states@, path@),
                        forall|x: int| 0 <= x < start ==> #[trigger] states[x] == State::Visited,
                        path.len() > 0 ==> s[path@.last() as int] == v && path[0] == start,
                        path.len() == 0 ==> v == start,
                        path.len() <= n,
                    decreases n - path.len(),
                {
                    proof {
                        lemma_mark_visiting(
                            s,
                            states@,
                            cycle_reprs@,
                            cycle_lens@,
                            cycle_ids@,
                            noncycle_lens@,
                            path@,
                            v as int,
                        );
                    }
                    path.push(v);
                    states[v] = State::Visiting;
                    v = succs[v];
                }
                let end = v;

                // Find the cycle that `end` leads to and its distance to it.
                // Where the walk has closed a new cycle, the vertices of that
                // cycle are taken off the path.
                let ghost full = path@;
                let cycle_id: usize;
                let mut ncl: usize;
                if states[end] == State::Visiting {
                    // The path has run into itself: `end` lies on a new cycle.
                    // Take the cycle's vertices off the path, last one first.
                    let ghost at = lemma_closing_start(
                        s,
                        states@,
                        cycle_reprs@,
                        cycle_lens@,
                        cycle_ids@,
                        noncycle_lens@,
                        full,
                        end,
                    );
                    let ghost mut least: int = 0;
                    let mut cycle_repr = usize::MAX;
                    let mut cycle_len: usize = 0;
                    loop
                        invariant_except_break
                            at < path.len(),
                        invariant
                            s == succs@,
                            s.len() == n,
                            sized(
                                s,
                                states@,
                                cycle_reprs@,
                                cycle_lens@,
                                cycle_ids@,
                                noncycle_lens@,
                            ),
                            closing(
                                s,
                                states@,
                                cycle_reprs@,
                                cycle_lens@,
                                cycle_ids@,
                                noncycle_lens@,
                                full,
                                end,
                                path.len() as int,
                            ),
                            0 <= at < full.len(),
                            full[at] == end,
                            at <= path.len() <= full.len() <= n,
                            path@ =~= full.subrange(0, path.len() as int),
                            cycle_len == full.len() - path.len(),
                            cycle_len == 0 ==> cycle_repr == usize::MAX,
                            cycle_len > 0 ==> path.len() <= least < full.len() && full[least]
                                == cycle_repr,
                            forall|j: int|
                                path.len() <= j < full.len() ==> cycle_repr <= #[trigger] full[j],
                            cycle_id_nxt == cycle_reprs.len(),
                            forall|x: int| 0 <= x < start ==> #[trigger] states[x] == State::Visited,
                        ensures
                            path.len() == at,
                        decreases path.len(),
                    {
                        proof {
                            lemma_closing_step(
                                s,
                                states@,
                                cycle_reprs@,
                                cycle_lens@,
                                cycle_ids@,
                                noncycle_lens@,
                                full,
                                end,
                                path.len() as int,
                                at,
                                cycle_id_nxt,
                            );
                        }
                        let v = path.pop().unwrap();
                        states[v] = State::Visited;
                        cycle_ids[v] = cycle_id_nxt;
                        noncycle_lens[v] = 0;
                        proof {
                            if cycle_len == 0 || v < cycle_repr {
                                least = path.len() as int;
                            }
                        }
                        if v < cycle_repr {
                            cycle_repr = v;
                        }
                        cycle_len += 1;
                        if v == end {
                            break;
                        }
                    }
                    proof {
                        lemma_closing_end(
                            s,
                            states@,
                            cycle_reprs@,
                            cycle_lens@,
                            cycle_ids@,
                            noncycle_lens@,
                            full,
                            end,
                            at,
                            least,
                        );
                        lemma_closing_trail(
                            s,
                            states@,
                            cycle_reprs@,
                            cycle_lens@,
                            cycle_ids@,
                            noncycle_lens@,
                            full,
                            end,
                            at,
                        );
                    }
                    // Record the new cycle.
                    cycle_reprs.push(cycle_repr);
                    cycle_lens.push(cycle_len);
                    cycle_id = cycle_id_nxt;
                    cycle_id_nxt += 1;
                    ncl = 0;
                } else {
                    // The path has joined one that was walked before.
                    cycle_id = cycle_ids[end];
                    ncl = noncycle_lens[end];
                }

                // Classify the vertices that are left on the path.
                let ghost mut nxt: int = end as int;
                while path.len() > 0
                    invariant
                        s == succs@,
                        s.len() == n,
                        sized(s, states@, cycle_reprs@, cycle_lens@, cycle_ids@, noncycle_lens@),
                        books_kept(
                            s,
                            states@,
                            cycle_reprs@,
                            cycle_lens@,
                            cycle_ids@,
                            noncycle_lens@,
                        ),
                        is_trail(s, states@, path@),
                        0 <= nxt < n,
                        states[nxt] == State::Visited,
                        cycle_ids[nxt] == cycle_id,
                        noncycle_lens[nxt] == ncl,
                        path.len() > 0 ==> s[path@.last() as int] == nxt && path[0] == start,
                        path.len() == 0 ==> states[start as int] == State::Visited
                            && cycle_ids[start as int] == cycle_id,
                        forall|x: int| 0 <= x < start ==> #[trigger] states[x] == State::Visited,
                    decreases path.len(),
                {
                    proof {
                        lemma_trail_last(s, states@, path@);
                        lemma_mark_visited(
                            s,
                            states@,
                            cycle_reprs@,
                            cycle_lens@,
                            cycle_ids@,
                            noncycle_lens@,
                            path@,
                            nxt,
                        );
                    }
                    let ghost longer = path@;
                    let v = path.pop().unwrap();
                    states[v] = State::Visited;
                    ncl += 1;
                    cycle_ids[v] = cycle_id;
                    noncycle_lens[v] = ncl;
                    proof {
                        nxt = v as int;
                        assert(path@ == longer.drop_last());
                        if path.len() > 0 {
                            reveal(is_trail);
                            assert(s[longer[path.len() - 1] as int] == longer[path.len() - 1 + 1]);
                        }
                    }
                }
                proof {
                    lemma_repr_recorded(
                        s,
                        states@,
                        cycle_reprs@,
                        cycle_lens@,
                        cycle_ids@,
                        noncycle_lens@,
                        start as int,
                    );
                    assert(path@ == Seq::<usize>::empty());
                }
            }
        }
        proof {
            lemma_books_closed(
                s,
                states@,
                cycle_reprs@,
                cycle_lens@,
                cycle_ids@,
                noncycle_lens@,
            );
        }
        (cycle_reprs, cycle_lens, cycle_ids, noncycle_lens)
    }
}

} // verus!
