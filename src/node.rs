use vstd::prelude::*;

verus! {

/// What a node of the graph is.
pub enum Kind<Op> {
    /// A named variable: a root of the graph, and the only place where the
    /// graph's values change.
    Input { name: &'static str },
    /// An operator applied to the node's arguments.
    Operator { op: Op },
}

/// One node of the graph: its kind and its arguments, given as the indices
/// of earlier nodes. Both are fixed once the node is built.
pub struct Expression<Op> {
    pub kind: Kind<Op>,
    pub args: Vec<usize>,
}

impl<Op> Expression<Op> {
    pub open spec fn is_input(&self) -> bool {
        self.kind is Input
    }

    /// Whether this node is an input leaf.
    pub fn is_input_leaf(&self) -> (r: bool)
        ensures
            r == self.is_input(),
    {
        match self.kind {
            Kind::Input { .. } => true,
            Kind::Operator { .. } => false,
        }
    }
}

/// An evaluator fit for the graph: it accepts every operator and argument
/// list, and its result depends on the operator and the argument values only.
pub open spec fn is_pure<V, Op, F: Fn(&Op, &Vec<V>) -> V>(f: F) -> bool {
    &&& forall|op: &Op, a: &Vec<V>| #[trigger] call_requires(f, (op, a))
    &&& forall|op: &Op, a1: &Vec<V>, a2: &Vec<V>, r1: V, r2: V|
        a1@ == a2@ && #[trigger] call_ensures(f, (op, a1), r1) && #[trigger] call_ensures(
            f,
            (op, a2),
            r2,
        ) ==> r1 == r2
}

/// `r` is a result that `f` may give for `op` on arguments of values `args`.
pub open spec fn produces<V, Op, F: Fn(&Op, &Vec<V>) -> V>(f: F, op: Op, args: Seq<V>, r: V) -> bool {
    exists|a: Vec<V>| a@ == args && #[trigger] call_ensures(f, (&op, &a), r)
}

/// What `f` gives for `op` on arguments of values `args`.
pub open spec fn result_of<V, Op, F: Fn(&Op, &Vec<V>) -> V>(f: F, op: Op, args: Seq<V>) -> V {
    choose|r: V| #[trigger] produces(f, op, args, r)
}

} // verus!
