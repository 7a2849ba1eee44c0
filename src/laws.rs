use vstd::prelude::*;

use crate::graph::{lemma_depends_on_arg, lemma_depends_on_self, lemma_same_shape, Graph};

verus! {

/// Computing a node twice in a row gives the same value both times, and the
/// second call finds the value held and changes nothing.
pub proof fn law_compute_idempotent<V: Copy, Op, F: Fn(&Op, &Vec<V>) -> V>(
    g1: Graph<V, Op, F>,
    g2: Graph<V, Op, F>,
    g3: Graph<V, Op, F>,
    n: int,
    r1: V,
    r2: V,
)
    requires
        g1.wf(),
        0 <= n < g1.len(),
        g1.computes(n, r1, &g2),
        g2.computes(n, r2, &g3),
    ensures
        r2 == r1,
        g3 == g2,
{
    assert(g2.has_cached(n));
}

/// Setting an input leaf clears exactly the nodes that depend on it: those
/// reached from it through dependant edges. Every other node keeps the value
/// it held, and a later `compute` of any node leaves that value in place.
pub proof fn law_invalidation_scope<V: Copy, Op, F: Fn(&Op, &Vec<V>) -> V>(
    g1: Graph<V, Op, F>,
    g2: Graph<V, Op, F>,
    g3: Graph<V, Op, F>,
    l: int,
    v: V,
    n: int,
    r: V,
)
    requires
        g1.wf(),
        0 <= l < g1.len(),
        g1.is_input(l),
        g1.sets(l, v, &g2),
        0 <= n < g1.len(),
        g2.computes(n, r, &g3),
    ensures
        forall|m: int|
            0 <= m < g1.len() && m != l ==> (#[trigger] g2.has_cached(m) <==> (g1.has_cached(m)
                && !g1.depends_on(m, l))),
        forall|m: int|
            0 <= m < g1.len() && !g1.depends_on(m, l) && g1.has_cached(m) ==> #[trigger] g3.cached(m)
                == g1.cached(m),
{
    assert forall|m: int|
        0 <= m < g1.len() && !g1.depends_on(m, l) && g1.has_cached(m) implies #[trigger] g3.cached(m)
        == g1.cached(m) by {
        lemma_depends_on_self(g1, l);
        assert(m != l);
        assert(g2.cached(m) == g1.cached(m));
        assert(g2.has_cached(m));
    }
}

/// With every node under `root` holding its value, setting the input leaf
/// `l` and then computing `root` fills in again exactly the nodes that lie
/// under `root` and depend on `l`: those were cleared and are now held.
/// Every other node's cache entry is left as `set` left it, so nothing else
/// is computed.
pub proof fn law_recompute_after_set<V: Copy, Op, F: Fn(&Op, &Vec<V>) -> V>(
    g1: Graph<V, Op, F>,
    g2: Graph<V, Op, F>,
    g3: Graph<V, Op, F>,
    l: int,
    v: V,
    root: int,
    r: V,
)
    requires
        g1.wf(),
        0 <= l < g1.len(),
        g1.is_input(l),
        0 <= root < g1.len(),
        forall|m: int| #[trigger] g1.depends_on(root, m) ==> g1.has_cached(m),
        g1.sets(l, v, &g2),
        g2.computes(root, r, &g3),
    ensures
        forall|m: int|
            0 <= m < g1.len() && m != l && g1.depends_on(root, m) && g1.depends_on(m, l) ==> {
                &&& !g2.has_cached(m)
                &&& #[trigger] g3.has_cached(m)
            },
        forall|m: int|
            0 <= m < g1.len() && !(g1.depends_on(root, m) && g1.depends_on(m, l)) ==> #[trigger] g3.cached(m)
                == g2.cached(m),
{
    lemma_same_shape(g2, g1);
    assert forall|m: int|
        0 <= m < g1.len() && !(g1.depends_on(root, m) && g1.depends_on(m, l)) implies #[trigger] g3.cached(m)
        == g2.cached(m) by {
        if g1.depends_on(root, m) {
            if m != l {
                assert(g2.cached(m) == g1.cached(m));
            }
            assert(g2.has_cached(m));
        }
    }
}

/// A node used as an argument by two operators: setting an input leaf it
/// depends on clears both operators.
pub proof fn law_shared_argument<V: Copy, Op, F: Fn(&Op, &Vec<V>) -> V>(
    g1: Graph<V, Op, F>,
    g2: Graph<V, Op, F>,
    l: int,
    v: V,
    a: int,
    c1: int,
    c2: int,
)
    requires
        g1.wf(),
        0 <= l < g1.len(),
        g1.is_input(l),
        g1.sets(l, v, &g2),
        0 <= c1 < g1.len(),
        0 <= c2 < g1.len(),
        g1.is_arg(a, c1),
        g1.is_arg(a, c2),
        g1.depends_on(a, l),
    ensures
        !g2.has_cached(c1),
        !g2.has_cached(c2),
{
    lemma_depends_on_arg(g1, c1, a, l);
    lemma_depends_on_arg(g1, c2, a, l);
    let i1 = choose|i: int| 0 <= i < g1.args(c1).len() && #[trigger] g1.args(c1)[i] as int == a;
    let i2 = choose|i: int| 0 <= i < g1.args(c2).len() && #[trigger] g1.args(c2)[i] as int == a;
    assert(g1.args(c1).len() > 0 && g1.args(c2).len() > 0);
    assert(!g1.is_input(c1) && !g1.is_input(c2));
}

/// In a graph with well-formed edges, the nodes reached from `n` through
/// dependant edges are exactly the nodes that depend on `n` through
/// argument edges; so `set` and `invalidate_cache` clear what is reached
/// from the node through dependant edges.
pub proof fn law_dependants_are_transpose<V: Copy, Op, F: Fn(&Op, &Vec<V>) -> V>(
    g: Graph<V, Op, F>,
    n: int,
    m: int,
)
    requires
        g.edges_ok(),
    ensures
        g.reached_by_dependants(n, m) <==> g.depends_on(m, n),
{
    if g.depends_on(m, n) {
        let p = choose|p: Seq<int>| #[trigger] g.is_path(p) && p[0] == n && p.last() == m;
        assert forall|k: int| 0 <= k < p.len() - 1 implies g.is_dependant(p[k + 1], #[trigger] p[k]) by {
            assert(g.is_arg(p[k], p[k + 1]));
            let i = choose|i: int| 0 <= i < g.args(p[k + 1]).len() && #[trigger] g.args(p[k + 1])[i] as int == p[k];
            assert(g.is_dependant(p[k + 1], g.args(p[k + 1])[i] as int));
        }
        assert(forall|k: int| 0 <= k < p.len() ==> 0 <= #[trigger] p[k] < g.len());
    }
    if g.reached_by_dependants(n, m) {
        let q = choose|q: Seq<int>|
            {
                &&& q.len() > 0
                &&& q[0] == n
                &&& q.last() == m
                &&& forall|k: int| 0 <= k < q.len() ==> 0 <= #[trigger] q[k] < g.len()
                &&& forall|k: int|
                    0 <= k < q.len() - 1 ==> g.is_dependant(q[k + 1], #[trigger] q[k])
            };
        assert forall|k: int| 0 <= k < q.len() - 1 implies g.is_arg(#[trigger] q[k], q[k + 1]) by {
            assert(g.is_dependant(q[k + 1], q[k]));
            let j = choose|j: int|
                0 <= j < g.dependants_of(q[k]).len() && #[trigger] g.dependants_of(q[k])[j] as int
                    == q[k + 1];
            assert(g.dependants_of(q[k])[j] < g.len());
        }
        assert(g.is_path(q));
    }
}

} // verus!
