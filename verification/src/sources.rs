//! The source finder: the vertices that no edge enters.

use vstd::prelude::*;
use crate::graph::FunctionalGraph;
use crate::model::{is_functional, is_source, source_list, sources_below};

verus! {

/// No edge that leaves a vertex below `m` enters `v`.
spec fn unmet_below(s: Seq<usize>, v: int, m: int) -> bool {
    forall|u: int| 0 <= u < m ==> #[trigger] s[u] != v
}

impl FunctionalGraph {
    /// Finds the sources of the graph with successor table `succs`: the list
    /// of them in ascending order, and for each vertex whether it is one.
    pub(crate) fn init_sources(n: usize, succs: &[usize]) -> (r: (Vec<usize>, Vec<bool>))
        requires
            succs@.len() == n,
            is_functional(succs@),
        ensures
            r.0@ == source_list(succs@),
            r.1@.len() == n,
            forall|v: int| 0 <= v < n ==> #[trigger] r.1@[v] == is_source(succs@, v),
    {
        let ghost s = succs@;
        let mut is_sources = vec![true; n];

        for u in 0..n
            invariant
                s == succs@,
                s.len() == n,
                is_functional(s),
                is_sources.len() == n,
                forall|v: int| 0 <= v < n ==> #[trigger] is_sources[v] == unmet_below(s, v, u as int),
        {
            let succ = succs[u];
            let ghost before = is_sources@;
            is_sources[succ] = false;
            proof {
                assert forall|v: int| 0 <= v < n implies #[trigger] is_sources[v] == unmet_below(
                    s,
                    v,
                    u + 1,
                ) by {
                    assert(before[v] == unmet_below(s, v, u as int));
                    if v == succ {
                        assert(s[u as int] == v);
                    }
                }
            }
        }

        let mut sources = Vec::<usize>::new();
        for v in 0..n
            invariant
                s.len() == n,
                is_sources.len() == n,
                forall|x: int| 0 <= x < n ==> #[trigger] is_sources[x] == is_source(s, x),
                sources@ == sources_below(s, v as nat),
        {
            if is_sources[v] {
                sources.push(v);
            }
        }

        (sources, is_sources)
    }
}

} // verus!
