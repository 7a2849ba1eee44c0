use vstd::prelude::*;

use crate::node::{is_pure, produces, result_of, Expression, Kind};

verus! {

/// A computation graph over values of type `V`, with operators of type `Op`
/// evaluated by `F`.
///
/// Nodes are stored in the order they were built, so every argument edge
/// points to an earlier node and the graph is acyclic by construction.
/// `dependants[a]` lists the nodes that have `a` as an argument; `cache[n]`
/// holds the value of an input leaf, or the memoised value of an operator.
#[verifier::reject_recursive_types(V)]
#[verifier::reject_recursive_types(Op)]
pub struct Graph<V, Op, F: Fn(&Op, &Vec<V>) -> V> {
    nodes: Vec<Expression<Op>>,
    dependants: Vec<Vec<usize>>,
    cache: Vec<Option<V>>,
    eval: F,
}

/// How many times `x` occurs in `s`.
pub open spec fn occurrences(s: Seq<usize>, x: usize) -> nat
    decreases s.len(),
{
    if s.len() == 0 {
        0
    } else {
        occurrences(s.drop_last(), x) + if s.last() == x {
            1nat
        } else {
            0nat
        }
    }
}

impl<V: Copy, Op, F: Fn(&Op, &Vec<V>) -> V> Graph<V, Op, F> {
    /// The number of nodes.
    pub closed spec fn len(&self) -> nat {
        self.nodes@.len()
    }

    /// Whether node `n` is an input leaf or an operator, and which.
    pub closed spec fn kind(&self, n: int) -> Kind<Op> {
        self.nodes@[n].kind
    }

    /// The arguments of node `n`, in order.
    pub closed spec fn args(&self, n: int) -> Seq<usize> {
        self.nodes@[n].args@
    }

    /// The nodes registered as having `n` for an argument.
    pub closed spec fn dependants_of(&self, n: int) -> Seq<usize> {
        self.dependants@[n]@
    }

    /// The value held for node `n`: always present for an input leaf, and
    /// present for an operator while its memoised value is current.
    pub closed spec fn cached(&self, n: int) -> Option<V> {
        self.cache@[n]
    }

    /// The function that computes an operator's value from its arguments.
    pub closed spec fn evaluator(&self) -> F {
        self.eval
    }

    /// The internal tables agree in length.
    pub closed spec fn tables_ok(&self) -> bool {
        &&& self.dependants@.len() == self.nodes@.len()
        &&& self.cache@.len() == self.nodes@.len()
    }

    /// Whether node `n` is an input leaf.
    pub open spec fn is_input(&self, n: int) -> bool {
        self.kind(n) is Input
    }

    /// Whether node `n` has a value to hand out without computing.
    pub open spec fn has_cached(&self, n: int) -> bool {
        self.cached(n) is Some
    }

    /// The value of node `n`, given the values `prev` of the nodes before it.
    pub open spec fn node_value(&self, n: int, prev: Seq<V>) -> V {
        match self.kind(n) {
            Kind::Input { .. } => self.cached(n)->0,
            Kind::Operator { op } => result_of(
                self.evaluator(),
                op,
                self.args(n).map_values(|a: usize| prev[a as int]),
            ),
        }
    }

    /// The values of the first `k` nodes, from the current input values.
    pub open spec fn values(&self, k: nat) -> Seq<V>
        decreases k,
    {
        if k == 0 {
            seq![]
        } else {
            let prev = self.values((k - 1) as nat);
            prev.push(self.node_value(k - 1, prev))
        }
    }

    /// The value of node `n` from the current input values.
    pub open spec fn value(&self, n: int) -> V {
        self.values(self.len())[n]
    }

    /// `a` is among the arguments of `m`.
    pub open spec fn is_arg(&self, a: int, m: int) -> bool {
        exists|i: int| 0 <= i < self.args(m).len() && #[trigger] self.args(m)[i] as int == a
    }

    /// `d` is registered as a dependant of `n`.
    pub open spec fn is_dependant(&self, d: int, n: int) -> bool {
        exists|j: int|
            0 <= j < self.dependants_of(n).len() && #[trigger] self.dependants_of(n)[j] as int == d
    }

    /// `p` is a walk along argument edges, read from an argument up to the
    /// node that uses it: each step is an argument of the next one.
    pub open spec fn is_path(&self, p: Seq<int>) -> bool {
        &&& p.len() > 0
        &&& forall|k: int| 0 <= k < p.len() ==> 0 <= #[trigger] p[k] < self.len()
        &&& forall|k: int| 0 <= k < p.len() - 1 ==> self.is_arg(#[trigger] p[k], p[k + 1])
    }

    /// Node `m` depends on node `l`: `l` is `m`, or is reached from `m`
    /// through argument edges. Equally, `m` is reached from `l` through
    /// dependant edges (see `law_dependants_are_transpose`).
    pub open spec fn depends_on(&self, m: int, l: int) -> bool {
        exists|p: Seq<int>| #[trigger] self.is_path(p) && p[0] == l && p.last() == m
    }

    /// `m` is reached from `n` by following registered dependant edges:
    /// a walk that starts at `n`, ends at `m`, and whose every step goes to a
    /// dependant of the node before it.
    pub open spec fn reached_by_dependants(&self, n: int, m: int) -> bool {
        exists|q: Seq<int>|
            {
                &&& q.len() > 0
                &&& q[0] == n
                &&& q.last() == m
                &&& forall|k: int| 0 <= k < q.len() ==> 0 <= #[trigger] q[k] < self.len()
                &&& forall|k: int|
                    0 <= k < q.len() - 1 ==> self.is_dependant(q[k + 1], #[trigger] q[k])
            }
    }

    /// Argument edges point to earlier nodes, input leaves have no
    /// arguments, and the dependant lists are the transpose of the argument
    /// lists.
    pub open spec fn edges_ok(&self) -> bool {
        &&& forall|n: int, i: int|
            0 <= n < self.len() && 0 <= i < self.args(n).len() ==> #[trigger] self.args(n)[i] < n
        &&& forall|n: int| 0 <= n < self.len() && #[trigger] self.is_input(n) ==> self.args(n).len() == 0
        &&& forall|n: int, j: int|
            0 <= n < self.len() && 0 <= j < self.dependants_of(n).len() ==> {
                let d = #[trigger] self.dependants_of(n)[j];
                &&& n < d < self.len()
                &&& self.is_arg(n, d as int)
            }
        &&& forall|n: int, i: int|
            0 <= n < self.len() && 0 <= i < self.args(n).len() ==> self.is_dependant(
                n,
                #[trigger] self.args(n)[i] as int,
            )
    }

    /// Input leaves always hold a value; a memoised value is the node's
    /// value; and an operator holds one only while all its arguments do.
    pub open spec fn cache_ok(&self) -> bool {
        &&& forall|n: int| 0 <= n < self.len() && #[trigger] self.is_input(n) ==> self.has_cached(n)
        &&& forall|n: int|
            0 <= n < self.len() && #[trigger] self.has_cached(n) ==> self.cached(n) == Some(
                self.value(n),
            )
        &&& forall|n: int, i: int|
            0 <= n < self.len() && self.has_cached(n) && 0 <= i < self.args(n).len()
                ==> self.has_cached(#[trigger] self.args(n)[i] as int)
    }

    /// The graph's invariant.
    pub open spec fn wf(&self) -> bool {
        &&& self.tables_ok()
        &&& self.edges_ok()
        &&& self.cache_ok()
        &&& is_pure(self.evaluator())
    }

    /// The two graphs have the same nodes, edges and evaluator; only what
    /// they hold in their caches may differ.
    pub open spec fn same_shape(&self, other: &Self) -> bool {
        &&& self.len() == other.len()
        &&& self.evaluator() == other.evaluator()
        &&& forall|n: int| 0 <= n < self.len() ==> #[trigger] self.kind(n) == other.kind(n)
        &&& forall|n: int| 0 <= n < self.len() ==> #[trigger] self.args(n) == other.args(n)
        &&& forall|n: int|
            0 <= n < self.len() ==> #[trigger] self.dependants_of(n) == other.dependants_of(n)
    }

    /// `after` and `r` are what `compute(n)` leaves and returns on this
    /// graph: `r` is the value of `n`; `n` and every node it depends on hold
    /// their values afterwards; nothing else changes, and values already held
    /// are kept. When `n` held its value, nothing at all changes.
    pub open spec fn computes(&self, n: int, r: V, after: &Self) -> bool {
        &&& after.wf()
        &&& after.same_shape(self)
        &&& r == self.value(n)
        &&& after.cached(n) == Some(r)
        &&& forall|m: int| 0 <= m < self.len() ==> #[trigger] after.value(m) == self.value(m)
        &&& forall|m: int|
            0 <= m < self.len() && self.depends_on(n, m) ==> #[trigger] after.has_cached(m)
        &&& forall|m: int|
            0 <= m < self.len() && self.has_cached(m) ==> #[trigger] after.cached(m) == self.cached(m)
        &&& forall|m: int|
            0 <= m < self.len() && !self.depends_on(n, m) ==> #[trigger] after.cached(m)
                == self.cached(m)
        &&& self.has_cached(n) ==> *after == *self
    }

    /// `after` is what `set(l, v)` leaves: `l` holds `v`, every node that
    /// depends on `l` has lost its memoised value, and every other node keeps
    /// what it held.
    pub open spec fn sets(&self, l: int, v: V, after: &Self) -> bool {
        &&& after.wf()
        &&& after.same_shape(self)
        &&& after.cached(l) == Some(v)
        &&& forall|m: int|
            0 <= m < self.len() && m != l ==> #[trigger] after.cached(m) == if self.depends_on(m, l) {
                None
            } else {
                self.cached(m)
            }
    }

    /// Only input leaves hold values: no operator has been computed.
    pub open spec fn no_cached_operator(&self) -> bool {
        forall|m: int| 0 <= m < self.len() && #[trigger] self.has_cached(m) ==> self.is_input(m)
    }

    /// A graph with no nodes.
    pub fn new(eval: F) -> (r: Self)
        requires
            is_pure(eval),
        ensures
            r.wf(),
            r.len() == 0,
            r.evaluator() == eval,
            r.no_cached_operator(),
    {
        Graph { nodes: Vec::new(), dependants: Vec::new(), cache: Vec::new(), eval }
    }

    /// The number of nodes.
    pub fn size(&self) -> (r: usize)
        requires
            self.wf(),
        ensures
            r == self.len(),
    {
        self.nodes.len()
    }

    /// Adds an input leaf named `name` holding `value`, and returns its index.
    pub fn input(&mut self, name: &'static str, value: V) -> (r: usize)
        requires
            old(self).wf(),
            old(self).len() < usize::MAX,
        ensures
            final(self).wf(),
            r == old(self).len(),
            final(self).len() == old(self).len() + 1,
            final(self).kind(r as int) == (Kind::Input::<Op> { name }),
            final(self).args(r as int).len() == 0,
            final(self).dependants_of(r as int).len() == 0,
            final(self).cached(r as int) == Some(value),
            final(self).evaluator() == old(self).evaluator(),
            old(self).no_cached_operator() ==> final(self).no_cached_operator(),
            forall|m: int| 0 <= m < old(self).len() ==> #[trigger] final(self).kind(m) == old(self).kind(m),
            forall|m: int| 0 <= m < old(self).len() ==> #[trigger] final(self).args(m) == old(self).args(m),
            forall|m: int|
                0 <= m < old(self).len() ==> #[trigger] final(self).dependants_of(m) == old(
                    self,
                ).dependants_of(m),
            forall|m: int|
                0 <= m < old(self).len() ==> #[trigger] final(self).cached(m) == old(self).cached(m),
    {
        let r = self.nodes.len();
        self.nodes.push(Expression { kind: Kind::Input { name }, args: Vec::new() });
        self.dependants.push(Vec::new());
        self.cache.push(Some(value));
        proof {
            let g = *old(self);
            assert(g.same_shape_upto(&*self, g.len()));
            lemma_values_kept(g, *self);
            if g.no_cached_operator() {
                assert forall|m: int| 0 <= m < self.len() && #[trigger] self.has_cached(m) implies self.is_input(
                    m,
                ) by {
                    if m < g.len() {
                        assert(g.has_cached(m));
                    }
                }
            }
            assert(self.values(self.len()) =~= g.values(g.len()).push(value));
            lemma_values_len(g, g.len());
            assert(self.value(r as int) == value);
            assert forall|n: int| 0 <= n < self.len() && #[trigger] self.has_cached(n)
                implies self.cached(n) == Some(self.value(n)) by {
                if n < g.len() {
                    assert(g.has_cached(n));
                    assert(self.values(self.len())[n] == g.value(n));
                }
            }
            assert forall|n: int, i: int|
                0 <= n < self.len() && 0 <= i < self.args(n).len() implies #[trigger] self.args(n)[i]
                < n by {
                assert(g.args(n)[i] < n);
            }
            assert forall|n: int| 0 <= n < self.len() && #[trigger] self.is_input(n) implies self.args(
                n,
            ).len() == 0 && self.has_cached(n) by {
                if n < g.len() {
                    assert(g.is_input(n));
                }
            }
            assert forall|n: int, j: int|
                0 <= n < self.len() && 0 <= j < self.dependants_of(n).len() implies {
                let d = #[trigger] self.dependants_of(n)[j];
                &&& n < d < self.len()
                &&& self.is_arg(n, d as int)
            } by {
                let d = g.dependants_of(n)[j];
                let i = choose|i: int| 0 <= i < g.args(d as int).len() && #[trigger] g.args(d as int)[i] as int == n;
                assert(self.args(d as int)[i] as int == n);
            }
            assert forall|n: int, i: int|
                0 <= n < self.len() && 0 <= i < self.args(n).len() implies self.is_dependant(
                n,
                #[trigger] self.args(n)[i] as int,
            ) by {
                let a = g.args(n)[i] as int;
                assert(g.is_dependant(n, a));
                let j = choose|j: int|
                    0 <= j < g.dependants_of(a).len() && #[trigger] g.dependants_of(a)[j] as int == n;
                assert(self.dependants_of(a)[j] as int == n);
            }
            assert forall|n: int, i: int|
                0 <= n < self.len() && self.has_cached(n) && 0 <= i < self.args(n).len()
                    implies self.has_cached(#[trigger] self.args(n)[i] as int) by {
                assert(g.has_cached(g.args(n)[i] as int));
            }
            assert forall|n: int| 0 <= n < self.len() && #[trigger] self.has_cached(n)
                implies self.cached(n) == Some(self.value(n)) by {
                if n < g.len() {
                    assert(g.has_cached(n));
                }
            }
        }
        r
    }

    /// Adds a node that applies `op` to the nodes `args`, registers it as a
    /// dependant of each of them, and returns its index. It holds no value
    /// until it is computed.
    pub fn add_node(&mut self, op: Op, args: Vec<usize>) -> (r: usize)
        requires
            old(self).wf(),
            old(self).len() < usize::MAX,
            forall|i: int| 0 <= i < args.len() ==> #[trigger] args[i] < old(self).len(),
        ensures
            final(self).wf(),
            r == old(self).len(),
            final(self).len() == old(self).len() + 1,
            final(self).kind(r as int) == (Kind::Operator::<Op> { op }),
            final(self).args(r as int) == args@,
            final(self).dependants_of(r as int).len() == 0,
            final(self).cached(r as int) is None,
            final(self).evaluator() == old(self).evaluator(),
            old(self).no_cached_operator() ==> final(self).no_cached_operator(),
            forall|m: int| 0 <= m < old(self).len() ==> #[trigger] final(self).kind(m) == old(self).kind(m),
            forall|m: int| 0 <= m < old(self).len() ==> #[trigger] final(self).args(m) == old(self).args(m),
            forall|m: int|
                0 <= m < old(self).len() ==> #[trigger] final(self).cached(m) == old(self).cached(m),
            forall|m: int|
                0 <= m < old(self).len() ==> #[trigger] final(self).dependants_of(m) == old(
                    self,
                ).dependants_of(m) + Seq::new(occurrences(args@, m as usize), |j: int| r),
    {
        let r = self.nodes.len();
        let n = args.len();
        let mut i: usize = 0;
        while i < n
            invariant
                0 <= i <= n,
                n == args.len(),
                r == old(self).len(),
                self.nodes@ == old(self).nodes@,
                self.cache@ == old(self).cache@,
                self.eval == old(self).eval,
                old(self).wf(),
                forall|k: int| 0 <= k < args.len() ==> #[trigger] args[k] < old(self).len(),
                self.dependants@.len() == old(self).dependants@.len(),
                forall|m: int|
                    #![trigger self.dependants@[m]]
                    0 <= m < old(self).len() ==> {
                        let before = old(self).dependants@[m]@;
                        let after = self.dependants@[m]@;
                        &&& before.len() <= after.len()
                        &&& forall|j: int| 0 <= j < before.len() ==> #[trigger] after[j] == before[j]
                        &&& forall|j: int| before.len() <= j < after.len() ==> #[trigger] after[j] == r
                        &&& after.len() == before.len() + occurrences(
                            args@.subrange(0, i as int),
                            m as usize,
                        )
                        &&& (after.len() > before.len()) == args@.subrange(0, i as int).contains(
                            m as usize,
                        )
                    },
            decreases n - i,
        {
            let a = args[i];
            let ghost prev = self.dependants@;
            self.dependants[a].push(r);
            i = i + 1;
            proof {
                assert(self.dependants@ == prev.update(a as int, self.dependants@[a as int]));
                assert(self.dependants@[a as int]@ == prev[a as int]@.push(r));
                assert(args@.subrange(0, i as int).drop_last() =~= args@.subrange(0, i - 1));
                assert(args@.subrange(0, i as int).last() == a);
                assert forall|m: int|
                    #![trigger self.dependants@[m]]
                    0 <= m < old(self).len() implies self.dependants@[m]@.len() == old(
                        self,
                    ).dependants@[m]@.len() + occurrences(args@.subrange(0, i as int), m as usize) by {
                    if m != a as int {
                        assert(self.dependants@[m] == prev[m]);
                    }
                }
                assert forall|m: int|
                    #![trigger self.dependants@[m]]
                    0 <= m < old(self).len() implies (self.dependants@[m]@.len()
                    > old(self).dependants@[m]@.len()) == args@.subrange(0, i as int).contains(
                    m as usize,
                ) by {
                    assert(args@.subrange(0, i as int) == args@.subrange(0, i - 1).push(a));
                    if m != a as int {
                        assert(self.dependants@[m] == prev[m]);
                        if args@.subrange(0, i as int).contains(m as usize) {
                            let k = choose|k: int| 0 <= k < i && #[trigger] args@.subrange(0, i as int)[k] == m as usize;
                            assert(args@.subrange(0, i - 1)[k] == m as usize);
                        }
                        if args@.subrange(0, i - 1).contains(m as usize) {
                            let k = choose|k: int| 0 <= k < i - 1 && #[trigger] args@.subrange(0, i - 1)[k] == m as usize;
                            assert(args@.subrange(0, i as int)[k] == m as usize);
                        }
                    } else {
                        assert(args@.subrange(0, i as int)[i - 1] == a);
                    }
                }
            }
        }
        proof {
            assert(args@.subrange(0, n as int) == args@);
            assert forall|m: int| 0 <= m < old(self).len() implies #[trigger] self.dependants@[m]@
                == old(self).dependants@[m]@ + Seq::new(occurrences(args@, m as usize), |j: int| r) by {
                assert(self.dependants@[m]@ =~= old(self).dependants@[m]@ + Seq::new(
                    occurrences(args@, m as usize),
                    |j: int| r,
                ));
            }
        }
        self.nodes.push(Expression { kind: Kind::Operator { op }, args });
        self.dependants.push(Vec::new());
        self.cache.push(None);
        proof {
            let g = *old(self);
            assert forall|m: int| 0 <= m < g.len() implies #[trigger] self.dependants_of(m)
                == self.dependants@[m]@ by {
            }
            assert(g.same_shape_upto(&*self, g.len()));
            lemma_values_kept(g, *self);
            if g.no_cached_operator() {
                assert forall|m: int| 0 <= m < self.len() && #[trigger] self.has_cached(m) implies self.is_input(
                    m,
                ) by {
                    if m < g.len() {
                        assert(g.has_cached(m));
                    }
                }
            }
            assert forall|m: int| 0 <= m < self.len() && #[trigger] self.has_cached(m)
                implies self.cached(m) == Some(self.value(m)) by {
                assert(g.has_cached(m));
            }
            assert forall|m: int, k: int|
                0 <= m < self.len() && 0 <= k < self.args(m).len() implies #[trigger] self.args(m)[k]
                < m by {
                if m < g.len() {
                    assert(g.args(m)[k] < m);
                }
            }
            assert forall|m: int| 0 <= m < self.len() && #[trigger] self.is_input(m) implies self.args(
                m,
            ).len() == 0 && self.has_cached(m) by {
                assert(g.is_input(m));
            }
            assert forall|m: int, k: int|
                0 <= m < self.len() && self.has_cached(m) && 0 <= k < self.args(m).len()
                    implies self.has_cached(#[trigger] self.args(m)[k] as int) by {
                assert(g.has_cached(g.args(m)[k] as int));
            }
            assert forall|m: int, j: int|
                0 <= m < self.len() && 0 <= j < self.dependants_of(m).len() implies {
                let d = #[trigger] self.dependants_of(m)[j];
                &&& m < d < self.len()
                &&& self.is_arg(m, d as int)
            } by {
                let before = g.dependants_of(m);
                if j < before.len() {
                    assert(self.dependants_of(m)[j] == before[j]);
                    let d = before[j];
                    let k = choose|k: int|
                        0 <= k < g.args(d as int).len() && #[trigger] g.args(d as int)[k] as int == m;
                    assert(self.args(d as int)[k] as int == m);
                } else {
                    assert(self.args(r as int) == args@);
                    let k = choose|k: int| 0 <= k < args@.len() && args@[k] == m as usize;
                    assert(self.args(r as int)[k] as int == m);
                }
            }
            assert forall|m: int, k: int|
                0 <= m < self.len() && 0 <= k < self.args(m).len() implies self.is_dependant(
                m,
                #[trigger] self.args(m)[k] as int,
            ) by {
                let a = self.args(m)[k] as int;
                if m < g.len() {
                    assert(g.args(m)[k] as int == a);
                    assert(g.is_dependant(m, a));
                    let j = choose|j: int|
                        0 <= j < g.dependants_of(a).len() && #[trigger] g.dependants_of(a)[j] as int
                            == m;
                    assert(self.dependants_of(a)[j] == g.dependants_of(a)[j]);
                } else {
                    assert(args@[k] as int == a);
                    assert(args@.contains(a as usize));
                    let j = g.dependants_of(a).len() as int;
                    assert(self.dependants_of(a)[j] as int == m);
                }
            }
        }
        r
    }


    /// Clears the memoised value of `n` and of every operator reached from
    /// `n` through dependant edges. Input leaves keep their values.
    fn clear_from(&mut self, n: usize)
        requires
            old(self).tables_ok(),
            old(self).edges_ok(),
            n < old(self).len(),
        ensures
            final(self).nodes@ == old(self).nodes@,
            final(self).dependants@ == old(self).dependants@,
            final(self).eval == old(self).eval,
            final(self).cache@.len() == old(self).cache@.len(),
            forall|m: int|
                0 <= m < old(self).len() ==> #[trigger] final(self).cached(m) == if old(self).depends_on(
                    m,
                    n as int,
                ) && !old(self).is_input(m) {
                    None
                } else {
                    old(self).cached(m)
                },
        decreases old(self).len() - n,
    {
        if !self.nodes[n].is_input_leaf() {
            self.cache.set(n, None);
        }
        let k = self.dependants[n].len();
        let mut j: usize = 0;
        while j < k
            invariant
                0 <= j <= k,
                n < old(self).len(),
                old(self).tables_ok(),
                old(self).edges_ok(),
                k == old(self).dependants_of(n as int).len(),
                self.nodes@ == old(self).nodes@,
                self.dependants@ == old(self).dependants@,
                self.eval == old(self).eval,
                self.cache@.len() == old(self).cache@.len(),
                forall|m: int|
                    0 <= m < old(self).len() ==> #[trigger] self.cached(m) == if !old(self).is_input(m)
                        && (m == n || exists|i: int|
                        0 <= i < j && #[trigger] old(self).depends_on(
                            m,
                            old(self).dependants_of(n as int)[i] as int,
                        )) {
                        None
                    } else {
                        old(self).cached(m)
                    },
            decreases k - j,
        {
            let d = self.dependants[n][j];
            proof {
                assert(old(self).dependants_of(n as int)[j as int] == d);
            }
            let ghost mid = *self;
            proof {
                lemma_same_shape(*old(self), mid);
            }
            self.clear_from(d);
            j = j + 1;
            proof {
                assert forall|m: int| 0 <= m < old(self).len() implies #[trigger] self.cached(m)
                    == if !old(self).is_input(m) && (m == n || exists|i: int|
                    0 <= i < j && #[trigger] old(self).depends_on(
                        m,
                        old(self).dependants_of(n as int)[i] as int,
                    )) {
                    None
                } else {
                    old(self).cached(m)
                } by {
                    assert(mid.depends_on(m, d as int) == old(self).depends_on(m, d as int));
                    if old(self).depends_on(m, d as int) {
                        assert(old(self).depends_on(m, old(self).dependants_of(n as int)[j - 1] as int));
                    } else if exists|i: int|
                        0 <= i < j && #[trigger] old(self).depends_on(
                            m,
                            old(self).dependants_of(n as int)[i] as int,
                        ) {
                        let i = choose|i: int|
                            0 <= i < j && #[trigger] old(self).depends_on(
                                m,
                                old(self).dependants_of(n as int)[i] as int,
                            );
                        assert(i < j - 1);
                    }
                }
            }
        }
        proof {
            assert forall|m: int| 0 <= m < old(self).len() implies #[trigger] self.cached(m)
                == if old(self).depends_on(m, n as int) && !old(self).is_input(m) {
                None
            } else {
                old(self).cached(m)
            } by {
                lemma_depends_on_dependants(*old(self), n as int, m);
            }
        }
    }

    /// Gives the input leaf `l` the value `value`, and clears the memoised
    /// value of every node that depends on it.
    pub fn set(&mut self, l: usize, value: V)
        requires
            old(self).wf(),
            l < old(self).len(),
            old(self).is_input(l as int),
        ensures
            old(self).sets(l as int, value, &*final(self)),
    {
        self.cache.set(l, Some(value));
        let ghost mid = *self;
        proof {
            lemma_same_shape(*old(self), mid);
        }
        self.clear_from(l);
        proof {
            let g = *old(self);
            assert forall|m: int| 0 <= m < g.len() && m != l implies #[trigger] self.cached(m)
                == if g.depends_on(m, l as int) {
                None
            } else {
                g.cached(m)
            } by {
                assert(mid.depends_on(m, l as int) == g.depends_on(m, l as int));
                if g.depends_on(m, l as int) {
                    lemma_depends_on_operator(g, m, l as int);
                }
            }
            lemma_cache_ok_after_clearing(g, *self, l as int);
        }
    }

    /// Clears the memoised value of node `n` and of every node that depends
    /// on it. Input leaves keep their values.
    pub fn invalidate_cache(&mut self, n: usize)
        requires
            old(self).wf(),
            n < old(self).len(),
        ensures
            final(self).wf(),
            final(self).same_shape(&*old(self)),
            forall|m: int|
                0 <= m < old(self).len() ==> #[trigger] final(self).cached(m) == if old(self).depends_on(
                    m,
                    n as int,
                ) && !old(self).is_input(m) {
                    None
                } else {
                    old(self).cached(m)
                },
    {
        self.clear_from(n);
        proof {
            lemma_depends_on_self(*old(self), n as int);
            lemma_cache_ok_after_clearing(*old(self), *self, n as int);
        }
    }


    /// What node `n` is: an input leaf with its name, or an operator.
    pub fn kind_of(&self, n: usize) -> (r: &Kind<Op>)
        requires
            self.wf(),
            n < self.len(),
        ensures
            *r == self.kind(n as int),
    {
        &self.nodes[n].kind
    }

    /// Whether node `n` is an input leaf.
    pub fn is_input_leaf(&self, n: usize) -> (r: bool)
        requires
            self.wf(),
            n < self.len(),
        ensures
            r == self.is_input(n as int),
    {
        self.nodes[n].is_input_leaf()
    }

    /// Whether node `n` holds a value that can be read without computing.
    pub fn has_cached_value(&self, n: usize) -> (r: bool)
        requires
            self.wf(),
            n < self.len(),
        ensures
            r == self.has_cached(n as int),
    {
        self.cache[n].is_some()
    }

    /// The value that node `n` holds; it must hold one.
    pub fn get_cached_value(&self, n: usize) -> (r: V)
        requires
            self.wf(),
            n < self.len(),
            self.has_cached(n as int),
        ensures
            self.cached(n as int) == Some(r),
            r == self.value(n as int),
    {
        self.cache[n].unwrap()
    }

    /// The value of node `n`, computing it and the missing values of the
    /// nodes it depends on; values already held are used as they are.
    #[verifier::rlimit(100)]
    pub fn compute(&mut self, n: usize) -> (r: V)
        requires
            old(self).wf(),
            n < old(self).len(),
        ensures
            old(self).computes(n as int, r, &*final(self)),
        decreases n,
    {
        match self.cache[n] {
            Some(v) => {
                proof {
                    assert(self.has_cached(n as int));
                    lemma_cached_upstream(*self, n as int);
                }
                return v;
            },
            None => {},
        }
        let ghost g = *old(self);
        let k = self.nodes[n].args.len();
        let mut vals: Vec<V> = Vec::new();
        let mut i: usize = 0;
        while i < k
            invariant
                g == *old(self),
                g.wf(),
                self.wf(),
                self.same_shape(&g),
                n < g.len(),
                !g.has_cached(n as int),
                self.cached(n as int) is None,
                k == g.args(n as int).len(),
                0 <= i <= k,
                vals@.len() == i,
                forall|j: int| 0 <= j < i ==> #[trigger] vals@[j] == g.value(g.args(n as int)[j] as int),
                forall|m: int| 0 <= m < g.len() ==> #[trigger] self.value(m) == g.value(m),
                forall|m: int|
                    0 <= m < g.len() && g.has_cached(m) ==> #[trigger] self.cached(m) == g.cached(m),
                forall|m: int|
                    0 <= m < g.len() && !g.depends_on(n as int, m) ==> #[trigger] self.cached(m)
                        == g.cached(m),
                forall|m: int, j: int|
                    0 <= j < i && #[trigger] g.depends_on(g.args(n as int)[j] as int, m)
                        ==> self.has_cached(m),
            decreases k - i,
        {
            proof {
                assert(self.args(n as int) == g.args(n as int));
            }
            let a = self.nodes[n].args[i];
            proof {
                assert(g.args(n as int)[i as int] == a);
                assert(a < n);
            }
            let ghost mid = *self;
            let v = self.compute(a);
            proof {
                lemma_compute_step(g, mid, *self, n as int, i as int, v);
            }
            vals.push(v);
            i = i + 1;
        }
        let ghost before = *self;
        let r = match &self.nodes[n].kind {
            Kind::Operator { op } => {
                let r = (self.eval)(op, &vals);
                proof {
                    assert(call_ensures(self.eval, (op, &vals), r));
                    assert(produces(self.eval, self.kind(n as int)->op, vals@, r));
                }
                r
            },
            Kind::Input { .. } => {
                proof {
                    assert(self.is_input(n as int));
                }
                return self.cache[n].unwrap();
            },
        };
        proof {
            assert(self.kind(n as int) == g.kind(n as int));
            let op = g.kind(n as int)->op;
            assert(produces(g.evaluator(), op, vals@, r));
            let r2 = result_of(g.evaluator(), op, vals@);
            let a2 = choose|a: Vec<V>| a@ == vals@ && #[trigger] call_ensures(g.evaluator(), (&op, &a), r2);
            assert(call_ensures(g.evaluator(), (&op, &a2), r2));
            lemma_values_len(g, g.len());
            lemma_values_len(g, n as nat);
            lemma_values_prefix(g, (n + 1) as nat, g.len());
            lemma_values_prefix(g, n as nat, g.len());
            let prev = g.values(n as nat);
            assert forall|j: int| 0 <= j < k implies prev[#[trigger] g.args(n as int)[j] as int]
                == vals@[j] by {
                assert(g.args(n as int)[j] < n);
            }
            assert(g.args(n as int).map_values(|a: usize| prev[a as int]) =~= vals@);
            assert(r == g.value(n as int));
        }
        self.cache.set(n, Some(r));
        proof {
            lemma_same_shape(g, before);
            assert(before.same_shape(&*self));
            lemma_values_same(before, *self);
            lemma_depends_on_self(g, n as int);
            assert forall|j: int| 0 <= j < k implies self.has_cached(#[trigger] g.args(n as int)[j] as int) by {
                lemma_depends_on_self(g, g.args(n as int)[j] as int);
            }
            assert forall|m: int|
                0 <= m < g.len() && g.depends_on(n as int, m) implies #[trigger] self.has_cached(m) by {
                if m != n {
                    lemma_depends_on_some_arg(g, n as int, m);
                }
            }
            assert forall|m: int, j: int|
                0 <= m < self.len() && self.has_cached(m) && 0 <= j < self.args(m).len()
                    implies self.has_cached(#[trigger] self.args(m)[j] as int) by {
                if m != n {
                    assert(before.has_cached(before.args(m)[j] as int));
                }
            }
            assert forall|m: int| 0 <= m < self.len() && #[trigger] self.has_cached(m)
                implies self.cached(m) == Some(self.value(m)) by {
                if m != n {
                    assert(before.has_cached(m));
                }
            }
            assert forall|m: int| 0 <= m < self.len() && #[trigger] self.is_input(m)
                implies self.has_cached(m) by {
                assert(before.is_input(m));
            }
            assert forall|m: int| 0 <= m < self.len() implies #[trigger] self.kind(m) == g.kind(m) by {
                assert(before.kind(m) == g.kind(m));
            }
            assert forall|m: int| 0 <= m < self.len() implies #[trigger] self.args(m) == g.args(m) by {
                assert(before.args(m) == g.args(m));
            }
            assert forall|m: int| 0 <= m < self.len() implies #[trigger] self.dependants_of(m)
                == g.dependants_of(m) by {
                assert(before.dependants_of(m) == g.dependants_of(m));
            }
            assert(self.same_shape(&g));
            lemma_same_shape(*self, g);
            assert(r == g.value(n as int));
            assert forall|m: int| 0 <= m < g.len() && g.has_cached(m) implies #[trigger] self.cached(m)
                == g.cached(m) by {
                assert(before.cached(m) == g.cached(m));
            }
            assert forall|m: int| 0 <= m < g.len() && !g.depends_on(n as int, m) implies #[trigger] self.cached(m)
                == g.cached(m) by {
                assert(before.cached(m) == g.cached(m));
            }
        }
        r
    }
}

impl<V: Copy, Op, F: Fn(&Op, &Vec<V>) -> V> Graph<V, Op, F> {
    /// The first `k` nodes agree in kind and arguments, and both graphs have
    /// the same evaluator.
    pub open spec fn same_shape_upto(&self, other: &Self, k: nat) -> bool {
        &&& k <= self.len()
        &&& k <= other.len()
        &&& self.evaluator() == other.evaluator()
        &&& forall|n: int| 0 <= n < k ==> #[trigger] self.kind(n) == other.kind(n)
        &&& forall|n: int| 0 <= n < k ==> #[trigger] self.args(n) == other.args(n)
        &&& forall|n: int, i: int|
            0 <= n < k && 0 <= i < self.args(n).len() ==> #[trigger] self.args(n)[i] < n
    }
}

/// `values(k)` holds one value per node.
pub proof fn lemma_values_len<V: Copy, Op, F: Fn(&Op, &Vec<V>) -> V>(g: Graph<V, Op, F>, k: nat)
    ensures
        g.values(k).len() == k,
    decreases k,
{
    if k > 0 {
        lemma_values_len(g, (k - 1) as nat);
    }
}

/// The values of the first `k` nodes do not depend on the nodes after them.
pub proof fn lemma_values_prefix<V: Copy, Op, F: Fn(&Op, &Vec<V>) -> V>(
    g: Graph<V, Op, F>,
    k: nat,
    j: nat,
)
    requires
        k <= j,
    ensures
        forall|i: int| 0 <= i < k ==> #[trigger] g.values(j)[i] == g.values(k)[i],
    decreases j,
{
    lemma_values_len(g, k);
    if k < j {
        lemma_values_prefix(g, k, (j - 1) as nat);
        lemma_values_len(g, (j - 1) as nat);
    }
}

/// A node depends on itself.
pub proof fn lemma_depends_on_self<V: Copy, Op, F: Fn(&Op, &Vec<V>) -> V>(
    g: Graph<V, Op, F>,
    m: int,
)
    requires
        0 <= m < g.len(),
    ensures
        g.depends_on(m, m),
{
    assert(g.is_path(seq![m]));
}

/// What depends on an argument of `m` depends on `m` too.
pub proof fn lemma_depends_on_arg<V: Copy, Op, F: Fn(&Op, &Vec<V>) -> V>(
    g: Graph<V, Op, F>,
    m: int,
    a: int,
    l: int,
)
    requires
        0 <= m < g.len(),
        g.is_arg(a, m),
        g.depends_on(a, l),
    ensures
        g.depends_on(m, l),
{
    let p = choose|p: Seq<int>| #[trigger] g.is_path(p) && p[0] == l && p.last() == a;
    let q = p.push(m);
    assert forall|k: int| 0 <= k < q.len() - 1 implies g.is_arg(#[trigger] q[k], q[k + 1]) by {
        if k < p.len() - 1 {
            assert(g.is_arg(p[k], p[k + 1]));
        }
    }
    assert(g.is_path(q));
}

/// A path climbs: every node on it comes at or after its first node.
proof fn lemma_path_climbs<V: Copy, Op, F: Fn(&Op, &Vec<V>) -> V>(
    g: Graph<V, Op, F>,
    p: Seq<int>,
    k: int,
)
    requires
        g.is_path(p),
        0 <= k < p.len(),
        forall|n: int, i: int|
            0 <= n < g.len() && 0 <= i < g.args(n).len() ==> #[trigger] g.args(n)[i] < n,
    ensures
        p[0] <= p[k],
    decreases k,
{
    if k > 0 {
        lemma_path_climbs(g, p, k - 1);
        assert(g.is_arg(p[k - 1], p[k]));
        let i = choose|i: int| 0 <= i < g.args(p[k]).len() && #[trigger] g.args(p[k])[i] as int == p[k - 1];
        assert(g.args(p[k])[i] < p[k]);
    }
}

/// A node depends only on itself and on earlier nodes.
pub proof fn lemma_depends_on_below<V: Copy, Op, F: Fn(&Op, &Vec<V>) -> V>(
    g: Graph<V, Op, F>,
    m: int,
    l: int,
)
    requires
        g.depends_on(m, l),
        forall|n: int, i: int|
            0 <= n < g.len() && 0 <= i < g.args(n).len() ==> #[trigger] g.args(n)[i] < n,
    ensures
        0 <= l <= m < g.len(),
{
    let p = choose|p: Seq<int>| #[trigger] g.is_path(p) && p[0] == l && p.last() == m;
    lemma_path_climbs(g, p, p.len() - 1);
    assert(0 <= p[0] && p[p.len() - 1] < g.len());
}

/// Growing the graph keeps the values of the nodes it had.
pub proof fn lemma_values_kept<V: Copy, Op, F: Fn(&Op, &Vec<V>) -> V>(
    g: Graph<V, Op, F>,
    h: Graph<V, Op, F>,
)
    requires
        g.wf(),
        g.same_shape_upto(&h, g.len()),
        forall|m: int| 0 <= m < g.len() ==> #[trigger] h.cached(m) == g.cached(m),
    ensures
        forall|m: int| 0 <= m < g.len() ==> #[trigger] h.values(h.len())[m] == g.value(m),
        h.values(g.len()) == g.values(g.len()),
{
    lemma_values_agree(g, h, g.len());
    lemma_values_len(g, g.len());
    lemma_values_len(h, g.len());
    lemma_values_prefix(h, g.len(), h.len());
    assert forall|m: int| 0 <= m < g.len() implies #[trigger] h.values(g.len())[m] == g.values(
        g.len(),
    )[m] by {
        assert forall|i: int| #[trigger] g.depends_on(m, i) && g.is_input(i) implies g.cached(i)
            == h.cached(i) by {
            lemma_depends_on_below(g, m, i);
        }
    }
    assert(h.values(g.len()) =~= g.values(g.len()));
}

/// Node `m` depends on `n` exactly when it is `n`, or depends on one of the
/// dependants registered for `n`.
pub proof fn lemma_depends_on_dependants<V: Copy, Op, F: Fn(&Op, &Vec<V>) -> V>(
    g: Graph<V, Op, F>,
    n: int,
    m: int,
)
    requires
        g.edges_ok(),
        0 <= n < g.len(),
    ensures
        g.depends_on(m, n) <==> (m == n || exists|j: int|
            0 <= j < g.dependants_of(n).len() && #[trigger] g.depends_on(
                m,
                g.dependants_of(n)[j] as int,
            )),
{
    if g.depends_on(m, n) && m != n {
        let p = choose|p: Seq<int>| #[trigger] g.is_path(p) && p[0] == n && p.last() == m;
        assert(p.len() >= 2);
        assert(g.is_arg(p[0], p[1]));
        let i = choose|i: int| 0 <= i < g.args(p[1]).len() && #[trigger] g.args(p[1])[i] as int == p[0];
        assert(g.is_dependant(p[1], g.args(p[1])[i] as int));
        let j = choose|j: int|
            0 <= j < g.dependants_of(n).len() && #[trigger] g.dependants_of(n)[j] as int == p[1];
        let q = p.subrange(1, p.len() as int);
        assert forall|k: int| 0 <= k < q.len() - 1 implies g.is_arg(#[trigger] q[k], q[k + 1]) by {
            assert(g.is_arg(p[k + 1], p[k + 2]));
        }
        assert(g.is_path(q));
        assert(g.depends_on(m, g.dependants_of(n)[j] as int));
    }
    lemma_depends_on_self(g, n);
    if exists|j: int|
        0 <= j < g.dependants_of(n).len() && #[trigger] g.depends_on(
            m,
            g.dependants_of(n)[j] as int,
        ) {
        let j = choose|j: int|
            0 <= j < g.dependants_of(n).len() && #[trigger] g.depends_on(
                m,
                g.dependants_of(n)[j] as int,
            );
        let d = g.dependants_of(n)[j] as int;
        let p = choose|p: Seq<int>| #[trigger] g.is_path(p) && p[0] == d && p.last() == m;
        let q = seq![n] + p;
        assert forall|k: int| 0 <= k < q.len() - 1 implies g.is_arg(#[trigger] q[k], q[k + 1]) by {
            if k > 0 {
                assert(g.is_arg(p[k - 1], p[k]));
            }
        }
        assert forall|k: int| 0 <= k < q.len() implies 0 <= #[trigger] q[k] < g.len() by {
            if k > 0 {
                assert(q[k] == p[k - 1]);
            }
        }
        assert(g.is_path(q));
    }
}

/// Graphs of the same shape have the same paths, and so the same
/// dependencies and the same well-formed edges.
pub proof fn lemma_same_shape<V: Copy, Op, F: Fn(&Op, &Vec<V>) -> V>(
    g: Graph<V, Op, F>,
    h: Graph<V, Op, F>,
)
    requires
        g.same_shape(&h),
    ensures
        forall|m: int, l: int| #[trigger] g.depends_on(m, l) == h.depends_on(m, l),
        g.edges_ok() == h.edges_ok(),
{
    assert forall|a: int, m: int| 0 <= m < g.len() implies #[trigger] g.is_arg(a, m) == h.is_arg(a, m) by {
        assert(g.args(m) == h.args(m));
    }
    assert forall|d: int, n: int| 0 <= n < g.len() implies #[trigger] g.is_dependant(d, n)
        == h.is_dependant(d, n) by {
        assert(g.dependants_of(n) == h.dependants_of(n));
    }
    assert forall|p: Seq<int>| #[trigger] g.is_path(p) == h.is_path(p) by {
        if g.is_path(p) {
            assert forall|k: int| 0 <= k < p.len() - 1 implies h.is_arg(#[trigger] p[k], p[k + 1]) by {
                assert(g.is_arg(p[k], p[k + 1]));
            }
        }
        if h.is_path(p) {
            assert forall|k: int| 0 <= k < p.len() - 1 implies g.is_arg(#[trigger] p[k], p[k + 1]) by {
                assert(h.is_arg(p[k], p[k + 1]));
            }
        }
    }
    assert forall|m: int, l: int| #[trigger] g.depends_on(m, l) == h.depends_on(m, l) by {
        if g.depends_on(m, l) {
            let p = choose|p: Seq<int>| #[trigger] g.is_path(p) && p[0] == l && p.last() == m;
            assert(h.is_path(p));
        }
        if h.depends_on(m, l) {
            let p = choose|p: Seq<int>| #[trigger] h.is_path(p) && p[0] == l && p.last() == m;
            assert(g.is_path(p));
        }
    }
    if g.edges_ok() {
        assert forall|n: int, j: int|
            0 <= n < h.len() && 0 <= j < h.dependants_of(n).len() implies {
            let d = #[trigger] h.dependants_of(n)[j];
            &&& n < d < h.len()
            &&& h.is_arg(n, d as int)
        } by {
            assert(g.dependants_of(n)[j] == h.dependants_of(n)[j]);
        }
        assert forall|n: int, i: int|
            0 <= n < h.len() && 0 <= i < h.args(n).len() implies h.is_dependant(
            n,
            #[trigger] h.args(n)[i] as int,
        ) by {
            assert(g.args(n)[i] == h.args(n)[i]);
        }
        assert forall|n: int, i: int|
            0 <= n < h.len() && 0 <= i < h.args(n).len() implies #[trigger] h.args(n)[i] < n by {
            assert(g.args(n)[i] == h.args(n)[i]);
        }
        assert forall|n: int| 0 <= n < h.len() && #[trigger] h.is_input(n) implies h.args(n).len() == 0 by {
            assert(g.is_input(n));
        }
    }
    if h.edges_ok() {
        assert forall|n: int, j: int|
            0 <= n < g.len() && 0 <= j < g.dependants_of(n).len() implies {
            let d = #[trigger] g.dependants_of(n)[j];
            &&& n < d < g.len()
            &&& g.is_arg(n, d as int)
        } by {
            assert(g.dependants_of(n)[j] == h.dependants_of(n)[j]);
        }
        assert forall|n: int, i: int|
            0 <= n < g.len() && 0 <= i < g.args(n).len() implies g.is_dependant(
            n,
            #[trigger] g.args(n)[i] as int,
        ) by {
            assert(g.args(n)[i] == h.args(n)[i]);
        }
        assert forall|n: int, i: int|
            0 <= n < g.len() && 0 <= i < g.args(n).len() implies #[trigger] g.args(n)[i] < n by {
            assert(g.args(n)[i] == h.args(n)[i]);
        }
        assert forall|n: int| 0 <= n < g.len() && #[trigger] g.is_input(n) implies g.args(n).len() == 0 by {
            assert(h.is_input(n));
        }
    }
}

/// A node other than `l` that depends on `l` is an operator.
pub proof fn lemma_depends_on_operator<V: Copy, Op, F: Fn(&Op, &Vec<V>) -> V>(
    g: Graph<V, Op, F>,
    m: int,
    l: int,
)
    requires
        g.edges_ok(),
        g.depends_on(m, l),
        m != l,
    ensures
        !g.is_input(m),
{
    let p = choose|p: Seq<int>| #[trigger] g.is_path(p) && p[0] == l && p.last() == m;
    assert(g.is_arg(p[p.len() - 2], p[p.len() - 1]));
}

/// Clearing every operator that depends on `n`, after `n` itself changed
/// its value if it is an input leaf, leaves the graph well formed.
proof fn lemma_cache_ok_after_clearing<V: Copy, Op, F: Fn(&Op, &Vec<V>) -> V>(
    g: Graph<V, Op, F>,
    h: Graph<V, Op, F>,
    n: int,
)
    requires
        g.wf(),
        0 <= n < g.len(),
        h.tables_ok(),
        h.nodes@ == g.nodes@,
        h.dependants@ == g.dependants@,
        h.eval == g.eval,
        g.is_input(n) ==> h.has_cached(n),
        forall|m: int|
            0 <= m < g.len() && m != n ==> #[trigger] h.cached(m) == if g.depends_on(m, n)
                && !g.is_input(m) {
                None
            } else {
                g.cached(m)
            },
        !g.is_input(n) ==> h.cached(n) is None,
    ensures
        h.wf(),
        h.same_shape(&g),
        forall|m: int|
            0 <= m < g.len() && !g.depends_on(m, n) ==> #[trigger] h.value(m) == g.value(m),
{
    assert(g.same_shape(&h));
    lemma_same_shape(g, h);
    assert(g.same_shape_upto(&h, g.len()));
    lemma_values_agree(g, h, g.len());
    if g.is_input(n) {
        lemma_values_len(h, h.len());
        lemma_values_prefix(h, (n + 1) as nat, h.len());
        lemma_values_len(h, n as nat);
        assert(h.cached(n) == Some(h.value(n)));
    }
    assert forall|m: int| 0 <= m < g.len() && !g.depends_on(m, n) implies #[trigger] h.value(m)
        == g.value(m) by {
        assert forall|i: int| #[trigger] g.depends_on(m, i) && g.is_input(i) implies g.cached(i)
            == h.cached(i) by {
            if i == n {
            }
        }
    }
    assert forall|m: int| 0 <= m < h.len() && #[trigger] h.has_cached(m) && m != n implies !g.depends_on(
        m,
        n,
    ) by {
        if g.depends_on(m, n) {
            lemma_depends_on_operator(g, m, n);
        }
    }
    assert forall|m: int| 0 <= m < h.len() && #[trigger] h.has_cached(m) && m != n implies h.cached(m)
        == Some(h.value(m)) by {
        assert(g.has_cached(m));
    }
    assert forall|m: int, i: int|
        0 <= m < h.len() && h.has_cached(m) && 0 <= i < h.args(m).len() implies h.has_cached(
        #[trigger] h.args(m)[i] as int,
    ) by {
        let a = h.args(m)[i] as int;
        if m != n {
            assert(g.has_cached(m));
            assert(g.has_cached(g.args(m)[i] as int));
            assert(g.is_arg(a, m));
            if g.depends_on(a, n) {
                lemma_depends_on_arg(g, m, a, n);
            }
            if a == n {
                lemma_depends_on_self(g, n);
                lemma_depends_on_arg(g, m, a, n);
            }
        } else {
            assert(g.is_input(n) || h.cached(n) is None);
        }
    }
    assert forall|m: int| 0 <= m < h.len() && #[trigger] h.is_input(m) implies h.has_cached(m) by {
        if m != n {
            assert(g.is_input(m));
            assert(g.has_cached(m));
        }
    }
}

/// Graphs of the same shape whose input leaves hold the same values give
/// every node the same value.
pub proof fn lemma_values_same<V: Copy, Op, F: Fn(&Op, &Vec<V>) -> V>(
    g: Graph<V, Op, F>,
    h: Graph<V, Op, F>,
)
    requires
        g.edges_ok(),
        g.same_shape(&h),
        forall|i: int| 0 <= i < g.len() && g.is_input(i) ==> #[trigger] g.cached(i) == h.cached(i),
    ensures
        forall|m: int| 0 <= m < g.len() ==> #[trigger] h.value(m) == g.value(m),
{
    assert(g.same_shape_upto(&h, g.len()));
    lemma_values_agree(g, h, g.len());
    assert forall|m: int| 0 <= m < g.len() implies #[trigger] h.value(m) == g.value(m) by {
        assert forall|i: int| #[trigger] g.depends_on(m, i) && g.is_input(i) implies g.cached(i)
            == h.cached(i) by {
            lemma_depends_on_below(g, m, i);
        }
    }
}

/// A node that depends on another node `m` depends on it through one of its
/// arguments.
pub proof fn lemma_depends_on_some_arg<V: Copy, Op, F: Fn(&Op, &Vec<V>) -> V>(
    g: Graph<V, Op, F>,
    n: int,
    m: int,
)
    requires
        g.depends_on(n, m),
        n != m,
    ensures
        exists|j: int| 0 <= j < g.args(n).len() && #[trigger] g.depends_on(g.args(n)[j] as int, m),
{
    let p = choose|p: Seq<int>| #[trigger] g.is_path(p) && p[0] == m && p.last() == n;
    assert(p.len() >= 2);
    assert(g.is_arg(p[p.len() - 2], p[p.len() - 1]));
    let j = choose|j: int| 0 <= j < g.args(n).len() && #[trigger] g.args(n)[j] as int == p[p.len() - 2];
    let q = p.subrange(0, p.len() - 1);
    assert forall|k: int| 0 <= k < q.len() - 1 implies g.is_arg(#[trigger] q[k], q[k + 1]) by {
        assert(g.is_arg(p[k], p[k + 1]));
    }
    assert(g.is_path(q));
    assert(g.depends_on(g.args(n)[j] as int, m));
}

/// In a well-formed graph, a node that holds its value has every node it
/// depends on holding one too.
pub proof fn lemma_cached_upstream<V: Copy, Op, F: Fn(&Op, &Vec<V>) -> V>(
    g: Graph<V, Op, F>,
    n: int,
)
    requires
        g.wf(),
        0 <= n < g.len(),
        g.has_cached(n),
    ensures
        forall|m: int| #[trigger] g.depends_on(n, m) ==> g.has_cached(m),
{
    assert forall|m: int| #[trigger] g.depends_on(n, m) implies g.has_cached(m) by {
        let p = choose|p: Seq<int>| #[trigger] g.is_path(p) && p[0] == m && p.last() == n;
        lemma_path_cached(g, p, 0);
    }
}

proof fn lemma_path_cached<V: Copy, Op, F: Fn(&Op, &Vec<V>) -> V>(
    g: Graph<V, Op, F>,
    p: Seq<int>,
    k: int,
)
    requires
        g.wf(),
        g.is_path(p),
        g.has_cached(p.last()),
        0 <= k < p.len(),
    ensures
        g.has_cached(p[k]),
    decreases p.len() - k,
{
    if k < p.len() - 1 {
        lemma_path_cached(g, p, k + 1);
        assert(g.is_arg(p[k], p[k + 1]));
        let i = choose|i: int| 0 <= i < g.args(p[k + 1]).len() && #[trigger] g.args(p[k + 1])[i] as int == p[k];
        assert(g.has_cached(g.args(p[k + 1])[i] as int));
    }
}

/// One argument of `n` computed: what `compute` keeps true from one
/// argument to the next.
proof fn lemma_compute_step<V: Copy, Op, F: Fn(&Op, &Vec<V>) -> V>(
    g: Graph<V, Op, F>,
    mid: Graph<V, Op, F>,
    h: Graph<V, Op, F>,
    n: int,
    i: int,
    v: V,
)
    requires
        g.wf(),
        mid.wf(),
        mid.same_shape(&g),
        0 <= n < g.len(),
        0 <= i < g.args(n).len(),
        mid.cached(n) is None,
        forall|m: int| 0 <= m < g.len() ==> #[trigger] mid.value(m) == g.value(m),
        forall|m: int| 0 <= m < g.len() && g.has_cached(m) ==> #[trigger] mid.cached(m) == g.cached(m),
        forall|m: int|
            0 <= m < g.len() && !g.depends_on(n, m) ==> #[trigger] mid.cached(m) == g.cached(m),
        forall|m: int, j: int|
            0 <= j < i && #[trigger] g.depends_on(g.args(n)[j] as int, m) ==> mid.has_cached(m),
        mid.computes(g.args(n)[i] as int, v, &h),
    ensures
        h.wf(),
        h.same_shape(&g),
        h.cached(n) is None,
        v == g.value(g.args(n)[i] as int),
        forall|m: int| 0 <= m < g.len() ==> #[trigger] h.value(m) == g.value(m),
        forall|m: int| 0 <= m < g.len() && g.has_cached(m) ==> #[trigger] h.cached(m) == g.cached(m),
        forall|m: int|
            0 <= m < g.len() && !g.depends_on(n, m) ==> #[trigger] h.cached(m) == g.cached(m),
        forall|m: int, j: int|
            0 <= j <= i && #[trigger] g.depends_on(g.args(n)[j] as int, m) ==> h.has_cached(m),
{
    let a = g.args(n)[i] as int;
    assert(mid.args(n) == g.args(n));
    lemma_same_shape(mid, g);
    assert(g.is_arg(a, n));
    assert(a < n);
    assert forall|m: int| 0 <= m < g.len() implies #[trigger] h.kind(m) == g.kind(m) by {
        assert(mid.kind(m) == g.kind(m));
    }
    assert forall|m: int| 0 <= m < g.len() implies #[trigger] h.args(m) == g.args(m) by {
        assert(mid.args(m) == g.args(m));
    }
    assert forall|m: int| 0 <= m < g.len() implies #[trigger] h.dependants_of(m) == g.dependants_of(m) by {
        assert(mid.dependants_of(m) == g.dependants_of(m));
    }
    if g.depends_on(a, n) {
        lemma_depends_on_below(g, a, n);
    }
    assert(h.cached(n) == mid.cached(n));
    assert forall|m: int|
        0 <= m < g.len() && !g.depends_on(n, m) implies #[trigger] h.cached(m) == g.cached(m) by {
        if g.depends_on(a, m) {
            lemma_depends_on_arg(g, n, a, m);
        }
        assert(mid.cached(m) == g.cached(m));
    }
    assert forall|m: int| 0 <= m < g.len() && g.has_cached(m) implies #[trigger] h.cached(m) == g.cached(m) by {
        assert(mid.cached(m) == g.cached(m));
    }
    assert forall|m: int, j: int|
        0 <= j <= i && #[trigger] g.depends_on(g.args(n)[j] as int, m) implies h.has_cached(m) by {
        lemma_depends_on_below(g, g.args(n)[j] as int, m);
        if j < i {
            assert(mid.has_cached(m));
            if mid.depends_on(a, m) {
                assert(h.has_cached(m));
            } else {
                assert(h.cached(m) == mid.cached(m));
            }
        }
    }
    assert forall|m: int| 0 <= m < g.len() implies #[trigger] h.value(m) == g.value(m) by {
        assert(mid.value(m) == g.value(m));
    }
}

/// Two graphs that agree on their first `k` nodes give a node among them
/// the same value wherever the input leaves it depends on hold the same
/// values.
pub proof fn lemma_values_agree<V: Copy, Op, F: Fn(&Op, &Vec<V>) -> V>(
    g1: Graph<V, Op, F>,
    g2: Graph<V, Op, F>,
    k: nat,
)
    requires
        g1.same_shape_upto(&g2, k),
    ensures
        forall|m: int|
            0 <= m < k && (forall|i: int|
                #[trigger] g1.depends_on(m, i) && g1.is_input(i) ==> g1.cached(i) == g2.cached(i))
                ==> #[trigger] g1.values(k)[m] == g2.values(k)[m],
    decreases k,
{
    if k > 0 {
        let k1 = (k - 1) as nat;
        lemma_values_agree(g1, g2, k1);
        lemma_values_len(g1, k1);
        lemma_values_len(g2, k1);
        let n = k1 as int;
        assert forall|m: int|
            0 <= m < k && (forall|i: int|
                #[trigger] g1.depends_on(m, i) && g1.is_input(i) ==> g1.cached(i) == g2.cached(i))
                implies #[trigger] g1.values(k)[m] == g2.values(k)[m] by {
            if m == n {
                lemma_depends_on_self(g1, n);
                let p1 = g1.values(k1);
                let p2 = g2.values(k1);
                assert forall|i: int| 0 <= i < g1.args(n).len() implies p1[#[trigger] g1.args(n)[i] as int]
                    == p2[g1.args(n)[i] as int] by {
                    let a = g1.args(n)[i] as int;
                    assert forall|j: int| #[trigger] g1.depends_on(a, j) && g1.is_input(j) implies g1.cached(j)
                        == g2.cached(j) by {
                        assert(g1.args(n)[i] as int == a);
                        lemma_depends_on_arg(g1, n, a, j);
                    }
                }
                assert(g1.args(n).map_values(|a: usize| p1[a as int]) =~= g2.args(n).map_values(
                    |a: usize| p2[a as int],
                ));
                if g1.is_input(n) {
                    assert(g1.cached(n) == g2.cached(n));
                }
                assert(g1.node_value(n, p1) == g2.node_value(n, p2));
            } else {
                assert(g1.values(k1)[m] == g2.values(k1)[m]);
            }
        }
    }
}

} // verus!
