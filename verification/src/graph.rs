//! The functional graph and its queries.

use vstd::prelude::*;
use crate::classify::is_classification;
use crate::laws::lemma_once_round;
use crate::model::{
    cycle_index, cycle_len, cycle_list, cycle_repr, is_functional, is_source, source_list,
    tail_len, walk,
};
use crate::orbit::{
    lemma_classifies_bound, lemma_classifies_unique, lemma_walk_add, lemma_walk_in_range,
    lemma_walk_reduced,
};

verus! {

/// A functional graph on the vertices `0..n`: every vertex has exactly one
/// outgoing edge.
///
/// Following the edges from any vertex leads into a cycle, the cycle of that
/// vertex.  A cycle is named by its representative, the least of its
/// vertices.  A vertex that no edge enters is a source.
///
/// The graph is analysed once, when it is built, and never changes.  Its
/// view is its successor table.
#[derive(Debug)]
pub struct FunctionalGraph {
    /// The number of vertices.
    n: usize,
    /// `succs[v]`: the vertex that the edge from `v` leads to.
    succs: Vec<usize>,
    /// `cycle_reprs[id]`: the representative of cycle `id`.
    cycle_reprs: Vec<usize>,
    /// `cycle_lens[id]`: the number of vertices of cycle `id`.
    cycle_lens: Vec<usize>,
    /// `cycle_ids[v]`: the cycle that `v` leads to.
    cycle_ids: Vec<usize>,
    /// `noncycle_lens[v]`: the number of edges from `v` to its cycle.
    noncycle_lens: Vec<usize>,
    /// The sources, in ascending order.
    sources: Vec<usize>,
    /// `is_sources[v]`: whether `v` is a source.
    is_sources: Vec<bool>,
}

/// The tables that the analysis of a graph fills.
pub struct Analysis {
    /// The representative of each cycle, by the cycle's number.
    pub cycle_reprs: Seq<usize>,
    /// The length of each cycle, by the cycle's number.
    pub cycle_lens: Seq<usize>,
    /// The number of the cycle that each vertex leads to.
    pub cycle_ids: Seq<usize>,
    /// The distance of each vertex to its cycle.
    pub noncycle_lens: Seq<usize>,
    /// The sources, in ascending order.
    pub sources: Seq<usize>,
    /// Of each vertex, whether it is a source.
    pub is_sources: Seq<bool>,
}

/// The tables that belong to the successor table `s`.
pub open spec fn analysis_of(s: Seq<usize>) -> Analysis {
    Analysis {
        cycle_reprs: cycle_list(s),
        cycle_lens: Seq::new(
            cycle_list(s).len(),
            |i: int| cycle_len(s, cycle_list(s)[i] as int) as usize,
        ),
        cycle_ids: Seq::new(s.len(), |v: int| cycle_index(s, v) as usize),
        noncycle_lens: Seq::new(s.len(), |v: int| tail_len(s, v) as usize),
        sources: source_list(s),
        is_sources: Seq::new(s.len(), |v: int| is_source(s, v)),
    }
}

impl View for FunctionalGraph {
    type V = Seq<usize>;

    closed spec fn view(&self) -> Seq<usize> {
        self.succs@
    }
}

impl FunctionalGraph {
    /// The tables of the graph are those of its successor table.
    pub closed spec fn wf(&self) -> bool {
        &&& self.n == self.succs@.len()
        &&& is_functional(self.succs@)
        &&& is_classification(
            self.succs@,
            self.cycle_reprs@,
            self.cycle_lens@,
            self.cycle_ids@,
            self.noncycle_lens@,
        )
        &&& self.sources@ == source_list(self.succs@)
        &&& self.is_sources@.len() == self.n
        &&& forall|v: int|
            0 <= v < self.n ==> #[trigger] self.is_sources@[v] == is_source(self.succs@, v)
    }

    /// The tables that the graph holds.
    pub closed spec fn analysis(&self) -> Analysis {
        Analysis {
            cycle_reprs: self.cycle_reprs@,
            cycle_lens: self.cycle_lens@,
            cycle_ids: self.cycle_ids@,
            noncycle_lens: self.noncycle_lens@,
            sources: self.sources@,
            is_sources: self.is_sources@,
        }
    }

    /// The successor table of a graph is functional: every entry is a
    /// vertex.  What holds of all functional tables holds of it.
    pub proof fn lemma_view_functional(&self)
        requires
            self.wf(),
        ensures
            is_functional(self@),
            self@.len() <= usize::MAX,
    {
    }

    /// The tables of a graph are those that belong to its successor table:
    /// nothing in them depends on anything else.
    pub proof fn lemma_analysis(&self)
        requires
            self.wf(),
        ensures
            self.analysis() == analysis_of(self@),
    {
        let s = self@;
        let mine = self.analysis();
        let due = analysis_of(s);
        assert(mine.cycle_lens =~= due.cycle_lens) by {
            assert forall|i: int| 0 <= i < mine.cycle_lens.len() implies mine.cycle_lens[i]
                == due.cycle_lens[i] by {
                let r = self.cycle_reprs@[i];
                self.lemma_records(r as int);
            }
        }
        assert(mine.cycle_ids =~= due.cycle_ids) by {
            assert forall|v: int| 0 <= v < s.len() implies mine.cycle_ids[v]
                == due.cycle_ids[v] by {
                self.lemma_records(v);
                let id = self.cycle_ids@[v] as int;
                assert(cycle_list(s)[id] == cycle_repr(s, v));
                let i = cycle_index(s, v);
                assert(0 <= i < cycle_list(s).len() && cycle_list(s)[i] == cycle_repr(s, v));
                assert(self.cycle_ids@[self.cycle_reprs@[i] as int] == i);
                assert(self.cycle_ids@[self.cycle_reprs@[id] as int] == id);
            }
        }
        assert(mine.noncycle_lens =~= due.noncycle_lens) by {
            assert forall|v: int| 0 <= v < s.len() implies mine.noncycle_lens[v]
                == due.noncycle_lens[v] by {
                self.lemma_records(v);
            }
        }
        assert(mine.is_sources =~= due.is_sources);
    }

    /// Two graphs with the same successor table have the same tables: the
    /// same cycle numbers, representatives, lengths, distances and sources.
    pub proof fn lemma_same_table_same_analysis(&self, other: &FunctionalGraph)
        requires
            self.wf(),
            other.wf(),
            self@ == other@,
        ensures
            self.analysis() == other.analysis(),
    {
        self.lemma_analysis();
        other.lemma_analysis();
    }

    /// A well-formed graph has a successor table that is functional, and
    /// the records of each vertex are the values of the model.
    proof fn lemma_records(&self, v: int)
        requires
            self.wf(),
            0 <= v < self@.len(),
        ensures
            is_functional(self@),
            self.cycle_ids@[v] < self.cycle_reprs@.len(),
            self.noncycle_lens@[v] == tail_len(self@, v),
            self.cycle_lens@[self.cycle_ids@[v] as int] == cycle_len(self@, v),
            self.cycle_reprs@[self.cycle_ids@[v] as int] == cycle_repr(self@, v),
            cycle_len(self@, v) >= 1,
            walk(self@, v, tail_len(self@, v) + cycle_len(self@, v)) == walk(
                self@,
                v,
                tail_len(self@, v),
            ),
            tail_len(self@, v) + cycle_len(self@, v) <= self@.len(),
    {
        let s = self.succs@;
        let id = self.cycle_ids@[v] as int;
        let t = self.noncycle_lens@[v] as nat;
        let len = self.cycle_lens@[id] as nat;
        let repr = self.cycle_reprs@[id] as int;
        lemma_classifies_unique(s, v, t, len, repr);
        lemma_classifies_bound(s, v, t, len, repr);
        lemma_walk_add(s, v, t, len);
    }

    /// Builds the graph on the vertices `0..n` in which the edge from `v`
    /// leads to `f(v)`, and analyses it.
    ///
    /// `f` must map `0..n` into `0..n`.
    pub fn new(n: usize, mut f: impl FnMut(usize) -> usize) -> (g: Self)
        requires
            forall|v: usize| v < n ==> call_requires(f, (v,)),
            forall|v: usize, r: usize| v < n && call_ensures(f, (v,), r) ==> r < n,
        ensures
            g.wf(),
            g@.len() == n,
            is_functional(g@),
            forall|v: int| 0 <= v < n ==> call_ensures(f, (v as usize,), #[trigger] g@[v]),
    {
        let ghost f0 = f;
        let mut succs: Vec<usize> = Vec::new();
        for v in 0..n
            invariant
                f == f0,
                forall|v: usize| v < n ==> call_requires(f0, (v,)),
                forall|v: usize, r: usize| v < n && call_ensures(f0, (v,), r) ==> r < n,
                succs.len() == v,
                forall|u: int| 0 <= u < v ==> (#[trigger] succs[u]) < n,
                forall|u: int| 0 <= u < v ==> call_ensures(f0, (u as usize,), #[trigger] succs[u]),
        {
            let succ = f(v);
            succs.push(succ);
        }

        let (cycle_reprs, cycle_lens, cycle_ids, noncycle_lens) = Self::init_cycles(
            n,
            succs.as_slice(),
        );

        let (sources, is_sources) = Self::init_sources(n, succs.as_slice());

        Self {
            n,
            succs,
            cycle_reprs,
            cycle_lens,
            cycle_ids,
            noncycle_lens,
            sources,
            is_sources,
        }
    }

    /// The number of vertices, which is also the number of edges.
    pub fn node_count(&self) -> (r: usize)
        requires
            self.wf(),
        ensures
            r == self@.len(),
    {
        self.n
    }

    /// The vertex that the edge from `v` leads to.
    pub fn succ(&self, v: usize) -> (r: usize)
        requires
            self.wf(),
            v < self@.len(),
        ensures
            r == self@[v as int],
            r < self@.len(),
    {
        self.succs[v]
    }

    /// The vertex reached from `v` by following `k` edges.
    ///
    /// The number of steps taken is less than the number of vertices,
    /// however large `k` is: once on the cycle, only the remainder of the
    /// division by the cycle's length is walked.
    pub fn kth_succ(&self, v: usize, k: usize) -> (r: usize)
        requires
            self.wf(),
            v < self@.len(),
        ensures
            r == walk(self@, v as int, k as nat),
    {
        // Going round the cycle many times is wasted: walk the remainder.
        let ncl = self.noncycle_len_of(v);
        let k_opt = if k >= ncl {
            let cl = self.cycle_len_of(v);
            proof {
                self.lemma_records(v as int);
                lemma_walk_reduced(self@, v as int, ncl as nat, cl as nat, k as nat);
            }
            ncl + (k - ncl) % cl
        } else {
            k
        };

        let mut w = v;
        for i in 0..k_opt
            invariant
                self.wf(),
                v < self@.len(),
                w == walk(self@, v as int, i as nat),
                w < self@.len(),
        {
            proof {
                self.lemma_records(v as int);
                lemma_walk_in_range(self@, v as int, (i + 1) as nat);
            }
            w = self.succs[w];
        }
        w
    }

    /// The vertices on the way from `v` once round its cycle: `v` first,
    /// then each one's successor, every vertex of the cycle exactly once.
    pub fn path_from(&self, v: usize) -> (r: Vec<usize>)
        requires
            self.wf(),
            v < self@.len(),
        ensures
            r@.len() == tail_len(self@, v as int) + cycle_len(self@, v as int),
            forall|i: int| 0 <= i < r@.len() ==> #[trigger] r@[i] == walk(self@, v as int, i as nat),
            r@.no_duplicates(),
            self@[r@.last() as int] == r@[tail_len(self@, v as int) as int],
    {
        proof {
            self.lemma_records(v as int);
            lemma_once_round(self@, v as int);
        }
        let count = self.noncycle_len_of(v) + self.cycle_len_of(v);

        let mut path: Vec<usize> = Vec::new();
        let mut w = v;
        for i in 0..count
            invariant
                self.wf(),
                v < self@.len(),
                w == walk(self@, v as int, i as nat),
                w < self@.len(),
                path@.len() == i,
                forall|j: int| 0 <= j < i ==> #[trigger] path@[j] == walk(self@, v as int, j as nat),
        {
            proof {
                self.lemma_records(v as int);
                lemma_walk_in_range(self@, v as int, (i + 1) as nat);
            }
            path.push(w);
            w = self.succs[w];
        }
        proof {
            assert forall|i: int, j: int|
                0 <= i < path@.len() && 0 <= j < path@.len() && i != j implies path@[i]
                != path@[j] by {
                assert(path@[i] == walk(self@, v as int, i as nat));
                assert(path@[j] == walk(self@, v as int, j as nat));
            }
            assert(path@.last() == path@[count - 1]);
        }
        path
    }

    /// The number of cycles.
    pub fn cycle_count(&self) -> (r: usize)
        requires
            self.wf(),
        ensures
            r == cycle_list(self@).len(),
    {
        self.cycle_reprs.len()
    }

    /// The representatives of all cycles, in the order of `cycle_list`.
    pub fn cycles(&self) -> (r: Vec<usize>)
        requires
            self.wf(),
        ensures
            r@ == cycle_list(self@),
    {
        self.cycle_reprs.clone()
    }

    /// The representative of the cycle that `v` leads to.
    pub fn cycle_of(&self, v: usize) -> (r: usize)
        requires
            self.wf(),
            v < self@.len(),
        ensures
            r == cycle_repr(self@, v as int),
    {
        proof {
            self.lemma_records(v as int);
        }
        let id = self.cycle_ids[v];

        self.cycle_reprs[id]
    }

    /// The number of vertices of the cycle that `v` leads to.
    pub fn cycle_len_of(&self, v: usize) -> (r: usize)
        requires
            self.wf(),
            v < self@.len(),
        ensures
            r == cycle_len(self@, v as int),
            r >= 1,
    {
        proof {
            self.lemma_records(v as int);
        }
        let id = self.cycle_ids[v];

        self.cycle_lens[id]
    }

    /// The number of edges from `v` to its cycle: 0 if `v` lies on it.
    pub fn noncycle_len_of(&self, v: usize) -> (r: usize)
        requires
            self.wf(),
            v < self@.len(),
        ensures
            r == tail_len(self@, v as int),
    {
        proof {
            self.lemma_records(v as int);
        }
        self.noncycle_lens[v]
    }

    /// The number of sources.
    pub fn source_count(&self) -> (r: usize)
        requires
            self.wf(),
        ensures
            r == source_list(self@).len(),
    {
        self.sources.len()
    }

    /// All sources, in ascending order.
    pub fn sources(&self) -> (r: Vec<usize>)
        requires
            self.wf(),
        ensures
            r@ == source_list(self@),
    {
        self.sources.clone()
    }

    /// Whether `v` is a source.
    pub fn is_source(&self, v: usize) -> (r: bool)
        requires
            self.wf(),
            v < self@.len(),
        ensures
            r == is_source(self@, v as int),
    {
        self.is_sources[v]
    }
}

} // verus!
