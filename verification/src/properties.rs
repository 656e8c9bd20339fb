//! Handles to the entities of a [`PropertySystem`]: properties, weak
//! property references and change listeners.
//!
//! A handle is a stable index into the system's arena. Handles are plain
//! copyable values; every operation on them takes the system explicitly, so
//! the whole dependency graph has a single owner and no aliased state.

use vstd::prelude::*;

use crate::binding::{eval_spec, gets_spec, valid_binding, Binding};
use crate::system::{
    lemma_max_rank_below, max_rank_below, reaches_plus, set_hits_pred, PropertySystem,
};

verus! {

broadcast use vstd::set::group_set_axioms, vstd::seq::group_seq_axioms;

/// A reactive value cell: either a literal or the cached result of a binding,
/// re-evaluated whenever a property it reads changes.
#[derive(Clone, Copy, PartialEq, Eq, Structural)]
pub struct Property {
    /// The property's index in the system's arena.
    pub id: usize,
}

/// A weak reference to a property: reading through it yields nothing once the
/// property has been destroyed, instead of a stale value.
#[derive(Clone, Copy, PartialEq, Eq, Structural)]
pub struct WeakProperty {
    /// The watched property's index in the system's arena.
    pub id: usize,
}

/// A change listener: an entity with no value of its own that counts how
/// often a watched property is assigned or recomputed, re-subscribing itself
/// after every notification.
#[derive(Clone, Copy, PartialEq, Eq, Structural)]
pub struct ChangeEvent {
    /// The listener's index in the system's arena.
    pub id: usize,
}

impl Property {
    /// The handle's index, as a specification-level integer.
    pub open spec fn id(self) -> int {
        self.id as int
    }

    /// Create a property: alive, with no binding, holding the default value.
    pub fn new(sys: &mut PropertySystem) -> (p: Property)
        requires
            old(sys).wf(),
        ensures
            final(sys).wf(),
            p.id() == old(sys).n(),
            final(sys).n() == old(sys).n() + 1,
            final(sys).n_listeners() == old(sys).n_listeners(),
            final(sys).is_alive(p.id()),
            final(sys).binding_of(p.id()) is None,
            final(sys).value_of(p.id()) == 0,
            final(sys).evals_of(p.id()) == 0,
            forall|q: int| old(sys).valid_prop(q) ==> #[trigger] final(sys).props@[q] == old(sys).props@[q],
            final(sys).listeners@ == old(sys).listeners@,
            forall|x: int, q: int| #[trigger] final(sys).edge_props(x, q) == old(sys).edge_props(
                x,
                q,
            ),
            forall|x: int, l: int| #[trigger] final(sys).edge_listener(x, l) == old(sys).edge_listener(x, l),
    {
        let id = sys.new_property();
        Property { id }
    }

    /// Create a property and immediately install a binding on it. The binding
    /// is evaluated once before the call returns; since the fresh property
    /// has no dependents yet, nothing else in the system changes.
    pub fn from_binding(sys: &mut PropertySystem, b: Binding) -> (p: Property)
        requires
            old(sys).wf(),
            valid_binding(b, old(sys).n()),
        ensures
            final(sys).wf(),
            p.id() == old(sys).n(),
            final(sys).n() == old(sys).n() + 1,
            final(sys).n_listeners() == old(sys).n_listeners(),
            final(sys).is_alive(p.id()),
            final(sys).binding_of(p.id()) == Some(b),
            final(sys).value_of(p.id()) == eval_spec(b, final(sys).vals()),
            final(sys).evals_of(p.id()) == 1,
            forall|q: int| old(sys).valid_prop(q) ==> #[trigger] final(sys).value_of(q) == old(sys).value_of(q) && final(sys).binding_of(q) == old(sys).binding_of(q) && final(sys).evals_of(q) == old(sys).evals_of(q) && final(sys).is_alive(q) == old(sys).is_alive(
                q,
            ),
            forall|l: int| old(sys).valid_listener(l) ==> #[trigger] final(sys).fires_of(l) == old(sys).fires_of(l),
            forall|x: int, l: int| #[trigger] final(sys).edge_listener(x, l) == old(sys).edge_listener(x, l),
    {
        let ghost pre = *sys;
        let p = Property::new(sys);
        let ghost mid = *sys;
        proof {
            let rank0 = choose|r: spec_fn(int) -> nat| pre.rank_ok(r);
            let rankp = (|x: int|
                if x == pre.n() {
                    (max_rank_below(rank0, pre.props@.len()) + 1) as nat
                } else {
                    rank0(x)
                });
            lemma_max_rank_below(rank0, pre.props@.len());
            assert(mid.rank_ok_with(p.id(), b, rankp)) by {
                assert forall|q: int, x: int| (#[trigger] gets_spec(
                    mid.the_binding(q),
                ).contains(x)) && mid.is_bound(q) && q != p.id() implies rankp(x) < rankp(q) by {
                    assert(0 <= q < pre.n());
                    assert(mid.props@[q] == pre.props@[q]);
                    assert(pre.is_bound(q));
                    assert(mid.the_binding(q) == pre.the_binding(q));
                    assert(gets_spec(pre.the_binding(q)).contains(x));
                    assert(rank0(x) < rank0(q));
                    assert(valid_binding(pre.the_binding(q), pre.n()));
                    assert(0 <= x < pre.n());
                }
                assert forall|x: int| #[trigger] gets_spec(b).contains(x) implies rankp(x) < rankp(
                    p.id(),
                ) by {
                    assert(0 <= x < pre.n());
                    assert(rank0(x) <= max_rank_below(rank0, pre.props@.len()));
                }
            }
            assert(mid.can_bind(p.id(), b));
            assert forall|x: int| #[trigger] gets_spec(b).contains(x) implies 0 <= x < mid.n() by {
                assert(0 <= x < pre.n());
            }
        }
        sys.install_binding(p.id, b);
        proof {
            let fin = *sys;
            // the fresh property has no dependents, so nothing else changed
            assert forall|q: int| !reaches_plus(mid, p.id(), q) by {
                if reaches_plus(mid, p.id(), q) {
                    let path = choose|path: Seq<int>|
                        path.len() >= 2 && path[0] == p.id() && path.last() == q
                            && #[trigger] crate::system::dep_path(mid, path);
                    assert(mid.edge_props(path[0int], path[0int + 1]));
                    let r1 = path[0int + 1];
                    assert(pre.edge_props(p.id(), r1));
                    let k = choose|k: int| pre.dep_edge_is(k, p.id(), r1);
                    assert(pre.dep_edges@[k].alive);
                    assert(pre.is_alive(p.id()));
                }
            }
            assert forall|q: int| pre.valid_prop(q) implies #[trigger] fin.value_of(q) == pre
                .value_of(q) && fin.binding_of(q) == pre.binding_of(q) && fin.evals_of(q) == pre
                .evals_of(q) && fin.is_alive(q) == pre.is_alive(q) by {
                assert(q != p.id());
                assert(!reaches_plus(mid, p.id(), q));
                assert(fin.value_of(q) == mid.value_of(q));
                assert(fin.binding_of(q) == mid.binding_of(q));
                assert(fin.evals_of(q) == mid.evals_of(q));
                assert(mid.props@[q] == pre.props@[q]);
            }
            assert forall|l: int| pre.valid_listener(l) implies #[trigger] fin.fires_of(l) == pre
                .fires_of(l) by {
                assert(fin.fires_of(l) == crate::arith::sat_add(
                    mid.fires_of(l),
                    crate::system::set_hits(mid, p.id(), l),
                ));
                assert forall|q: int| 0 <= q < mid.props@.len() implies !(
                #[trigger] set_hits_pred(mid, p.id(), l)(q)) by {
                    if q == p.id() || reaches_plus(mid, p.id(), q) {
                        assert(q == p.id());
                        if mid.edge_listener(q, l) {
                            let k = choose|k: int| mid.listen_edge_is(k, q, l);
                            assert(pre.listen_edge_is(k, q, l)) by {
                                assert(mid.edge_listener(q, l) == pre.edge_listener(q, l));
                                let k2 = choose|k2: int| pre.listen_edge_is(k2, q, l);
                                assert(pre.listen_edges@[k2].alive);
                                assert(pre.is_alive(q));
                                assert(false);
                            }
                        }
                    }
                }
                crate::system::lemma_count_true_zero(
                    set_hits_pred(mid, p.id(), l),
                    mid.props@.len(),
                );
                assert(crate::system::set_hits(mid, p.id(), l) == 0);
                assert(mid.listeners@ == pre.listeners@);
            }
        }
        p
    }

    /// Assign the literal `v`: clear any binding, store the value, and
    /// synchronously re-evaluate every dependent before returning.
    pub fn set(&self, sys: &mut PropertySystem, v: u64)
        requires
            old(sys).wf(),
            old(sys).is_alive(self.id()),
        ensures
            PropertySystem::set_rel(*old(sys), *final(sys), self.id(), v),
    {
        sys.set_value(self.id, v);
    }

    /// Install a binding: the property's value becomes the binding's result,
    /// now and after every change of a property the binding reads.
    ///
    /// The caller vouches, through [`PropertySystem::can_bind`], that the
    /// binding creates no dependency cycle.
    pub fn set_binding(&self, sys: &mut PropertySystem, b: Binding)
        requires
            old(sys).wf(),
            old(sys).is_alive(self.id()),
            valid_binding(b, old(sys).n()),
            old(sys).can_bind(self.id(), b),
        ensures
            PropertySystem::set_binding_rel(*old(sys), *final(sys), self.id(), b),
    {
        sys.install_binding(self.id, b);
    }

    /// Install a binding, taking ownership of it. Bindings are plain values
    /// here, so — unlike in an engine that stores borrowed closures — owned
    /// and borrowed installation coincide.
    pub fn set_binding_owned(&self, sys: &mut PropertySystem, b: Binding)
        requires
            old(sys).wf(),
            old(sys).is_alive(self.id()),
            valid_binding(b, old(sys).n()),
            old(sys).can_bind(self.id(), b),
        ensures
            PropertySystem::set_binding_rel(*old(sys), *final(sys), self.id(), b),
    {
        sys.install_binding(self.id, b);
    }

    /// The current value. Values are pushed (recomputed eagerly on every
    /// write), so a read never triggers recomputation; it returns whatever
    /// was last computed — also after the property has been destroyed.
    pub fn get(&self, sys: &PropertySystem) -> (r: u64)
        requires
            self.id() < sys.n(),
        ensures
            r == sys.value_of(self.id()),
    {
        sys.read_value(self.id)
    }

    /// The current value; an alias of [`Property::get`].
    pub fn value(&self, sys: &PropertySystem) -> (r: u64)
        requires
            self.id() < sys.n(),
        ensures
            r == sys.value_of(self.id()),
    {
        sys.read_value(self.id)
    }

    /// How many times the currently installed binding has been evaluated;
    /// zero for a literal property.
    pub fn recomputations(&self, sys: &PropertySystem) -> (r: u64)
        requires
            self.id() < sys.n(),
        ensures
            r == sys.evals_of(self.id()),
    {
        sys.read_evals(self.id)
    }

    /// Register a change listener on this property and return its handle:
    /// from now on, every assignment or recomputation of the property is
    /// counted on the listener.
    pub fn on_notify(&self, sys: &mut PropertySystem) -> (e: ChangeEvent)
        requires
            old(sys).wf(),
            old(sys).is_alive(self.id()),
        ensures
            final(sys).wf(),
            e.id() == old(sys).n_listeners(),
            final(sys).n_listeners() == old(sys).n_listeners() + 1,
            final(sys).props@ == old(sys).props@,
            final(sys).dep_edges@ == old(sys).dep_edges@,
            final(sys).fires_of(e.id()) == 0,
            forall|m: int| old(sys).valid_listener(m) ==> #[trigger] final(sys).fires_of(m) == old(sys).fires_of(m),
            forall|x: int, m: int| #[trigger] final(sys).edge_listener(x, m) == (old(sys).edge_listener(x, m) || (x == self.id() && m == e.id())),
    {
        let ghost pre = *sys;
        let e = ChangeEvent::new(sys);
        let ghost mid = *sys;
        proof {
            crate::system::lemma_same_listen_edges(pre, mid);
        }
        e.listen(sys, *self);
        proof {
            assert forall|x: int, m: int| #[trigger] sys.edge_listener(x, m) == (pre.edge_listener(
                x,
                m,
            ) || (x == self.id() && m == e.id())) by {
                assert(sys.edge_listener(x, m) == (mid.edge_listener(x, m) || (x == self.id() && m
                    == e.id())));
                assert(mid.edge_listener(x, m) == pre.edge_listener(x, m));
            }
            assert forall|m: int| pre.valid_listener(m) implies #[trigger] sys.fires_of(m) == pre
                .fires_of(m) by {
                assert(mid.fires_of(m) == pre.fires_of(m));
                assert(sys.listeners@ == mid.listeners@);
            }
        }
        e
    }

    /// Destroy the property: unlink every edge that touches it and mark the
    /// slot dead. Dependents are not re-evaluated; they keep their bindings
    /// and their last values, and no longer hold an edge to this property.
    pub fn destroy(&self, sys: &mut PropertySystem)
        requires
            old(sys).wf(),
            old(sys).is_alive(self.id()),
        ensures
            PropertySystem::destroy_rel(*old(sys), *final(sys), self.id()),
    {
        sys.destroy_prop(self.id);
    }

    /// A weak handle to this property.
    pub fn as_weak(&self) -> (w: WeakProperty)
        ensures
            w.id() == self.id(),
    {
        WeakProperty { id: self.id }
    }
}

impl WeakProperty {
    /// The handle's index, as a specification-level integer.
    pub open spec fn id(self) -> int {
        self.id as int
    }

    /// The watched property's value, or nothing once it has been destroyed.
    pub fn get(&self, sys: &PropertySystem) -> (r: Option<u64>)
        requires
            self.id() < sys.n(),
        ensures
            r == if sys.is_alive(self.id()) {
                Some(sys.value_of(self.id()))
            } else {
                None::<u64>
            },
    {
        if sys.read_alive(self.id) {
            Some(sys.read_value(self.id))
        } else {
            None
        }
    }
}

impl ChangeEvent {
    /// The handle's index, as a specification-level integer.
    pub open spec fn id(self) -> int {
        self.id as int
    }

    /// Create a listener that is not yet subscribed to anything.
    pub fn new(sys: &mut PropertySystem) -> (e: ChangeEvent)
        requires
            old(sys).wf(),
        ensures
            final(sys).wf(),
            e.id() == old(sys).n_listeners(),
            final(sys).n_listeners() == old(sys).n_listeners() + 1,
            final(sys).props@ == old(sys).props@,
            final(sys).dep_edges@ == old(sys).dep_edges@,
            final(sys).listen_edges@ == old(sys).listen_edges@,
            final(sys).fires_of(e.id()) == 0,
            forall|m: int| old(sys).valid_listener(m) ==> #[trigger] final(sys).fires_of(m) == old(sys).fires_of(m),
    {
        let id = sys.new_listener();
        ChangeEvent { id }
    }

    /// Subscribe to property `p`. Each notification re-subscribes the
    /// listener, so it keeps firing on every subsequent change of `p`.
    pub fn listen(&self, sys: &mut PropertySystem, p: Property)
        requires
            old(sys).wf(),
            old(sys).is_alive(p.id()),
            old(sys).valid_listener(self.id()),
        ensures
            final(sys).wf(),
            final(sys).props@ == old(sys).props@,
            final(sys).listeners@ == old(sys).listeners@,
            final(sys).dep_edges@ == old(sys).dep_edges@,
            forall|x: int, m: int| #[trigger] final(sys).edge_listener(x, m) == (old(sys).edge_listener(x, m) || (x == p.id() && m == self.id())),
    {
        sys.subscribe(self.id, p.id);
    }

    /// How many times the listener has been notified.
    pub fn count(&self, sys: &PropertySystem) -> (r: u64)
        requires
            self.id() < sys.n_listeners(),
        ensures
            r == sys.fires_of(self.id()),
    {
        sys.read_fires(self.id)
    }
}

} // verus!
