//! Bindings: deferred computations that produce a property value by reading
//! zero or more other properties.
//!
//! A binding is a first-order expression over property handles. Evaluating a
//! binding against the current property values is a pure function, given by
//! [`eval_spec`]; the set of properties an evaluation actually reads is given
//! by [`reads_spec`]. A conditional binding reads only the branch it takes,
//! so the read set depends on the current values — this is what makes stale
//! dependency edges possible and why the engine rebuilds the edge set on
//! every re-evaluation.

use vstd::prelude::*;

use crate::arith::{wadd, wmul, wsub};
use crate::properties::Property;

verus! {

broadcast use vstd::set::group_set_axioms;

/// A parameterless computation producing a property's value, capable of
/// reading other properties (by handle index).
///
/// Arithmetic wraps modulo 2^64, so evaluation is total.
pub enum Binding {
    /// A constant.
    Lit(u64),
    /// The current value of the property with this index.
    Get(usize),
    /// Wrapping sum of the two operands.
    Add(Box<Binding>, Box<Binding>),
    /// Wrapping difference of the two operands.
    Sub(Box<Binding>, Box<Binding>),
    /// Wrapping product of the two operands.
    Mul(Box<Binding>, Box<Binding>),
    /// `Cond(c, t, e)` evaluates `c`, then evaluates and returns `t` if `c`
    /// was non-zero and `e` otherwise; the untaken branch is not read.
    Cond(Box<Binding>, Box<Binding>, Box<Binding>),
}

/// The value a binding produces, given the values of all properties.
///
/// A `Get` whose index lies outside `vals` yields 0; the engine's
/// well-formedness excludes such bindings, so the case is never reached.
pub open spec fn eval_spec(b: Binding, vals: Seq<u64>) -> u64
    decreases b,
{
    match b {
        Binding::Lit(v) => v,
        Binding::Get(p) => if p < vals.len() { vals[p as int] } else { 0 },
        Binding::Add(x, y) => wadd(eval_spec(*x, vals), eval_spec(*y, vals)),
        Binding::Sub(x, y) => wsub(eval_spec(*x, vals), eval_spec(*y, vals)),
        Binding::Mul(x, y) => wmul(eval_spec(*x, vals), eval_spec(*y, vals)),
        Binding::Cond(c, t, e) => if eval_spec(*c, vals) != 0 {
            eval_spec(*t, vals)
        } else {
            eval_spec(*e, vals)
        },
    }
}

/// The properties an evaluation of `b` reads, given the values of all
/// properties. Only the taken branch of a `Cond` is read.
pub open spec fn reads_spec(b: Binding, vals: Seq<u64>) -> Set<int>
    decreases b,
{
    match b {
        Binding::Lit(_) => Set::empty(),
        Binding::Get(p) => Set::empty().insert(p as int),
        Binding::Add(x, y) => reads_spec(*x, vals).union(reads_spec(*y, vals)),
        Binding::Sub(x, y) => reads_spec(*x, vals).union(reads_spec(*y, vals)),
        Binding::Mul(x, y) => reads_spec(*x, vals).union(reads_spec(*y, vals)),
        Binding::Cond(c, t, e) => reads_spec(*c, vals).union(
            if eval_spec(*c, vals) != 0 {
                reads_spec(*t, vals)
            } else {
                reads_spec(*e, vals)
            },
        ),
    }
}

/// Every property `b` mentions, whether or not an evaluation reads it: the
/// syntactic over-approximation of [`reads_spec`].
pub open spec fn gets_spec(b: Binding) -> Set<int>
    decreases b,
{
    match b {
        Binding::Lit(_) => Set::empty(),
        Binding::Get(p) => Set::empty().insert(p as int),
        Binding::Add(x, y) => gets_spec(*x).union(gets_spec(*y)),
        Binding::Sub(x, y) => gets_spec(*x).union(gets_spec(*y)),
        Binding::Mul(x, y) => gets_spec(*x).union(gets_spec(*y)),
        Binding::Cond(c, t, e) => gets_spec(*c).union(gets_spec(*t).union(gets_spec(*e))),
    }
}

/// `b` mentions only properties with index below `n`.
pub open spec fn valid_binding(b: Binding, n: int) -> bool {
    forall|p: int| gets_spec(b).contains(p) ==> 0 <= p < n
}

/// The number of nodes in `b`; a termination measure for evaluation.
pub open spec fn bsize(b: Binding) -> nat
    decreases b,
{
    match b {
        Binding::Lit(_) => 1,
        Binding::Get(_) => 1,
        Binding::Add(x, y) => 1 + bsize(*x) + bsize(*y),
        Binding::Sub(x, y) => 1 + bsize(*x) + bsize(*y),
        Binding::Mul(x, y) => 1 + bsize(*x) + bsize(*y),
        Binding::Cond(c, t, e) => 1 + bsize(*c) + bsize(*t) + bsize(*e),
    }
}

/// What a binding reads is contained in what it mentions.
pub proof fn lemma_reads_subset_of_gets(b: Binding, vals: Seq<u64>)
    ensures
        forall|p: int| #[trigger] reads_spec(b, vals).contains(p) ==> gets_spec(b).contains(p),
    decreases b,
{
    match b {
        Binding::Lit(_) => {},
        Binding::Get(_) => {},
        Binding::Add(x, y) => {
            lemma_reads_subset_of_gets(*x, vals);
            lemma_reads_subset_of_gets(*y, vals);
            assert forall|p: int| #[trigger] reads_spec(b, vals).contains(p)
                implies gets_spec(b).contains(p) by {
                assert(reads_spec(b, vals) == reads_spec(*x, vals).union(reads_spec(*y, vals)));
                assert(gets_spec(b) == gets_spec(*x).union(gets_spec(*y)));
                assert(reads_spec(*x, vals).contains(p) || reads_spec(*y, vals).contains(p));
                assert(gets_spec(*x).contains(p) || gets_spec(*y).contains(p));
            }
        },
        Binding::Sub(x, y) => {
            lemma_reads_subset_of_gets(*x, vals);
            lemma_reads_subset_of_gets(*y, vals);
            assert forall|p: int| #[trigger] reads_spec(b, vals).contains(p)
                implies gets_spec(b).contains(p) by {
                assert(reads_spec(b, vals) == reads_spec(*x, vals).union(reads_spec(*y, vals)));
                assert(gets_spec(b) == gets_spec(*x).union(gets_spec(*y)));
                assert(reads_spec(*x, vals).contains(p) || reads_spec(*y, vals).contains(p));
                assert(gets_spec(*x).contains(p) || gets_spec(*y).contains(p));
            }
        },
        Binding::Mul(x, y) => {
            lemma_reads_subset_of_gets(*x, vals);
            lemma_reads_subset_of_gets(*y, vals);
            assert forall|p: int| #[trigger] reads_spec(b, vals).contains(p)
                implies gets_spec(b).contains(p) by {
                assert(reads_spec(b, vals) == reads_spec(*x, vals).union(reads_spec(*y, vals)));
                assert(gets_spec(b) == gets_spec(*x).union(gets_spec(*y)));
                assert(reads_spec(*x, vals).contains(p) || reads_spec(*y, vals).contains(p));
                assert(gets_spec(*x).contains(p) || gets_spec(*y).contains(p));
            }
        },
        Binding::Cond(c, t, e) => {
            lemma_reads_subset_of_gets(*c, vals);
            lemma_reads_subset_of_gets(*t, vals);
            lemma_reads_subset_of_gets(*e, vals);
            assert forall|p: int| #[trigger] reads_spec(b, vals).contains(p)
                implies gets_spec(b).contains(p) by {
                assert(reads_spec(b, vals) == reads_spec(*c, vals).union(
                    if eval_spec(*c, vals) != 0 {
                        reads_spec(*t, vals)
                    } else {
                        reads_spec(*e, vals)
                    },
                ));
                assert(gets_spec(b) == gets_spec(*c).union(gets_spec(*t).union(gets_spec(*e))));
                assert(reads_spec(*c, vals).contains(p) || reads_spec(*t, vals).contains(p)
                    || reads_spec(*e, vals).contains(p));
                assert(gets_spec(*c).contains(p) || gets_spec(*t).contains(p)
                    || gets_spec(*e).contains(p));
            }
        },
    }
}

/// An evaluation depends only on the values it reads: two value assignments
/// that agree on `reads_spec(b, v1)` produce the same result and the same
/// read set.
pub proof fn lemma_eval_agrees(b: Binding, v1: Seq<u64>, v2: Seq<u64>)
    requires
        forall|p: int| #[trigger] reads_spec(b, v1).contains(p) ==> 0 <= p < v1.len()
            && p < v2.len() && v1[p] == v2[p],
    ensures
        eval_spec(b, v2) == eval_spec(b, v1),
        reads_spec(b, v2) == reads_spec(b, v1),
    decreases b,
{
    match b {
        Binding::Lit(_) => {},
        Binding::Get(p) => {
            assert(reads_spec(b, v1).contains(p as int));
        },
        Binding::Add(x, y) => {
            assert forall|p: int| #[trigger] reads_spec(*x, v1).contains(p)
                implies 0 <= p < v1.len() && p < v2.len() && v1[p] == v2[p] by {
                assert(reads_spec(b, v1) == reads_spec(*x, v1).union(reads_spec(*y, v1)));
                assert(reads_spec(b, v1).contains(p));
            }
            assert forall|p: int| #[trigger] reads_spec(*y, v1).contains(p)
                implies 0 <= p < v1.len() && p < v2.len() && v1[p] == v2[p] by {
                assert(reads_spec(b, v1) == reads_spec(*x, v1).union(reads_spec(*y, v1)));
                assert(reads_spec(b, v1).contains(p));
            }
            lemma_eval_agrees(*x, v1, v2);
            lemma_eval_agrees(*y, v1, v2);
            assert(reads_spec(b, v2) =~= reads_spec(b, v1));
        },
        Binding::Sub(x, y) => {
            assert forall|p: int| #[trigger] reads_spec(*x, v1).contains(p)
                implies 0 <= p < v1.len() && p < v2.len() && v1[p] == v2[p] by {
                assert(reads_spec(b, v1) == reads_spec(*x, v1).union(reads_spec(*y, v1)));
                assert(reads_spec(b, v1).contains(p));
            }
            assert forall|p: int| #[trigger] reads_spec(*y, v1).contains(p)
                implies 0 <= p < v1.len() && p < v2.len() && v1[p] == v2[p] by {
                assert(reads_spec(b, v1) == reads_spec(*x, v1).union(reads_spec(*y, v1)));
                assert(reads_spec(b, v1).contains(p));
            }
            lemma_eval_agrees(*x, v1, v2);
            lemma_eval_agrees(*y, v1, v2);
            assert(reads_spec(b, v2) =~= reads_spec(b, v1));
        },
        Binding::Mul(x, y) => {
            assert forall|p: int| #[trigger] reads_spec(*x, v1).contains(p)
                implies 0 <= p < v1.len() && p < v2.len() && v1[p] == v2[p] by {
                assert(reads_spec(b, v1) == reads_spec(*x, v1).union(reads_spec(*y, v1)));
                assert(reads_spec(b, v1).contains(p));
            }
            assert forall|p: int| #[trigger] reads_spec(*y, v1).contains(p)
                implies 0 <= p < v1.len() && p < v2.len() && v1[p] == v2[p] by {
                assert(reads_spec(b, v1) == reads_spec(*x, v1).union(reads_spec(*y, v1)));
                assert(reads_spec(b, v1).contains(p));
            }
            lemma_eval_agrees(*x, v1, v2);
            lemma_eval_agrees(*y, v1, v2);
            assert(reads_spec(b, v2) =~= reads_spec(b, v1));
        },
        Binding::Cond(c, t, e) => {
            assert forall|p: int| #[trigger] reads_spec(*c, v1).contains(p)
                implies 0 <= p < v1.len() && p < v2.len() && v1[p] == v2[p] by {
                assert(reads_spec(b, v1).contains(p));
            }
            lemma_eval_agrees(*c, v1, v2);
            if eval_spec(*c, v1) != 0 {
                assert forall|p: int| #[trigger] reads_spec(*t, v1).contains(p)
                    implies 0 <= p < v1.len() && p < v2.len() && v1[p] == v2[p] by {
                    assert(reads_spec(b, v1).contains(p));
                }
                lemma_eval_agrees(*t, v1, v2);
            } else {
                assert forall|p: int| #[trigger] reads_spec(*e, v1).contains(p)
                    implies 0 <= p < v1.len() && p < v2.len() && v1[p] == v2[p] by {
                    assert(reads_spec(b, v1).contains(p));
                }
                lemma_eval_agrees(*e, v1, v2);
            }
            assert(reads_spec(b, v2) =~= reads_spec(b, v1));
        },
    }
}

impl Binding {
    /// A binding that always yields `v`.
    pub fn lit(v: u64) -> (r: Binding)
        ensures
            r == Binding::Lit(v),
    {
        Binding::Lit(v)
    }

    /// A binding that reads property `p`.
    pub fn read(p: Property) -> (r: Binding)
        ensures
            r == Binding::Get(p.id),
    {
        Binding::Get(p.id)
    }

    /// The wrapping sum of two bindings.
    pub fn plus(x: Binding, y: Binding) -> (r: Binding)
        ensures
            r == Binding::Add(Box::new(x), Box::new(y)),
    {
        Binding::Add(Box::new(x), Box::new(y))
    }

    /// The wrapping difference of two bindings.
    pub fn minus(x: Binding, y: Binding) -> (r: Binding)
        ensures
            r == Binding::Sub(Box::new(x), Box::new(y)),
    {
        Binding::Sub(Box::new(x), Box::new(y))
    }

    /// The wrapping product of two bindings.
    pub fn times(x: Binding, y: Binding) -> (r: Binding)
        ensures
            r == Binding::Mul(Box::new(x), Box::new(y)),
    {
        Binding::Mul(Box::new(x), Box::new(y))
    }

    /// A binding that evaluates `t` when `c` is non-zero and `e` otherwise.
    pub fn if_nonzero(c: Binding, t: Binding, e: Binding) -> (r: Binding)
        ensures
            r == Binding::Cond(Box::new(c), Box::new(t), Box::new(e)),
    {
        Binding::Cond(Box::new(c), Box::new(t), Box::new(e))
    }

    /// A structural copy of the binding.
    pub fn duplicate(&self) -> (r: Binding)
        ensures
            r == *self,
        decreases *self,
    {
        match self {
            Binding::Lit(v) => Binding::Lit(*v),
            Binding::Get(p) => Binding::Get(*p),
            Binding::Add(x, y) => Binding::Add(Box::new(x.duplicate()), Box::new(y.duplicate())),
            Binding::Sub(x, y) => Binding::Sub(Box::new(x.duplicate()), Box::new(y.duplicate())),
            Binding::Mul(x, y) => Binding::Mul(Box::new(x.duplicate()), Box::new(y.duplicate())),
            Binding::Cond(c, t, e) => Binding::Cond(
                Box::new(c.duplicate()),
                Box::new(t.duplicate()),
                Box::new(e.duplicate()),
            ),
        }
    }
}

/// Binding storage: a binding installed on a property, together with the
/// number of times the engine has re-evaluated it.
pub struct BindingStorage {
    /// The stored computation.
    pub binding: Binding,
    /// How many times the binding has been evaluated; sticks at `u64::MAX`.
    pub evals: u64,
}

impl BindingStorage {
    /// Fresh storage for a binding that has not been evaluated yet.
    pub fn new(b: Binding) -> (r: BindingStorage)
        ensures
            r.binding == b,
            r.evals == 0,
    {
        BindingStorage { binding: b, evals: 0 }
    }
}

} // verus!
