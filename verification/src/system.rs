//! The property system: an arena holding every property, change listener and
//! dependency edge of one reactive graph, together with the update engine.
//!
//! A pointer-based engine of this kind would thread two intrusive
//! doubly-linked lists through each dependency edge (the notify list of the
//! property being read and the reverse-dependency list of the reader). Here
//! an edge is a slot in an arena; the two list memberships become the two
//! index fields of the slot, and unlinking is marking the slot dead. This
//! keeps the per-edge structure while making every operation a plain function
//! of the arena, amenable to specification.
//!
//! Cycle policy: a binding must not, directly or transitively, read the
//! property it computes. The engine requires the installed bindings to admit
//! a rank function (see [`PropertySystem::rank_ok`]); recomputation then
//! provably terminates. A graph that would recurse forever (or overflow the
//! stack, in the pointer-based formulation) is excluded by precondition
//! rather than detected at run time.

use vstd::prelude::*;

use crate::arith::{inc_saturating, sat_add, sat_inc};
use crate::binding::{bsize, eval_spec, gets_spec, reads_spec, valid_binding, Binding, BindingStorage};

verus! {

broadcast use vstd::set::group_set_axioms, vstd::seq::group_seq_axioms;

/// One property slot: the cached value, the installed binding (if any), and
/// the engine's transient bookkeeping.
pub struct PropSlot {
    /// False once the property has been destroyed; a dead slot keeps its last
    /// value but takes part in no further dependency tracking.
    pub alive: bool,
    /// The current cached value.
    pub value: u64,
    /// The installed binding, or `None` for a literal property.
    pub binding: Option<BindingStorage>,
    /// True while the property awaits recomputation inside an update sweep;
    /// always false at rest.
    pub dirty: bool,
}

/// One listener slot: how often the listener has been notified.
pub struct ListenerSlot {
    /// The notification count; sticks at `u64::MAX`.
    pub fires: u64,
}

/// A dependency edge: property `reader` read property `source` during the
/// last evaluation of `reader`'s binding. The edge is a member of `source`'s
/// notify list and of `reader`'s reverse-dependency list at once; both
/// memberships end together when the edge is marked dead.
pub struct DependencyNode {
    /// False once the edge has been unlinked from both lists.
    pub alive: bool,
    /// The property that was read.
    pub source: usize,
    /// The property whose binding read it.
    pub reader: usize,
}

/// A subscription edge: the listener is notified whenever `source` is
/// assigned or recomputed.
pub struct ListenNode {
    /// False once the subscription has been dropped.
    pub alive: bool,
    /// The watched property.
    pub source: usize,
    /// The subscribed listener.
    pub listener: usize,
}

/// The arena holding one reactive dependency graph and its update engine.
pub struct PropertySystem {
    /// The property slots; a `Property` handle is an index into this vector.
    pub props: Vec<PropSlot>,
    /// The listener slots; a `ChangeEvent` handle is an index into this one.
    pub listeners: Vec<ListenerSlot>,
    /// The arena of property-to-property dependency edges.
    pub dep_edges: Vec<DependencyNode>,
    /// The arena of property-to-listener subscription edges.
    pub listen_edges: Vec<ListenNode>,
}

impl PropertySystem {
    /// The number of property slots ever created.
    pub open spec fn n(self) -> int {
        self.props@.len() as int
    }

    /// The number of listener slots ever created.
    pub open spec fn n_listeners(self) -> int {
        self.listeners@.len() as int
    }

    /// `p` indexes a property slot.
    pub open spec fn valid_prop(self, p: int) -> bool {
        0 <= p < self.n()
    }

    /// `l` indexes a listener slot.
    pub open spec fn valid_listener(self, l: int) -> bool {
        0 <= l < self.n_listeners()
    }

    /// `p` is a property that has not been destroyed.
    pub open spec fn is_alive(self, p: int) -> bool {
        self.valid_prop(p) && self.props@[p].alive
    }

    /// The current value of property `p`.
    pub open spec fn value_of(self, p: int) -> u64 {
        self.props@[p].value
    }

    /// The binding installed on property `p`, if any.
    pub open spec fn binding_of(self, p: int) -> Option<Binding> {
        match self.props@[p].binding {
            Some(bs) => Some(bs.binding),
            None => None,
        }
    }

    /// `p` is a live property with a binding installed.
    pub open spec fn is_bound(self, p: int) -> bool {
        self.is_alive(p) && self.props@[p].binding is Some
    }

    /// The binding installed on property `p` (meaningful when bound).
    pub open spec fn the_binding(self, p: int) -> Binding {
        self.props@[p].binding->0.binding
    }

    /// How many times `p`'s current binding has been evaluated.
    pub open spec fn evals_of(self, p: int) -> u64 {
        if self.props@[p].binding is Some {
            self.props@[p].binding->0.evals
        } else {
            0
        }
    }

    /// `p` awaits recomputation inside a running update sweep.
    pub open spec fn is_dirty(self, p: int) -> bool {
        self.valid_prop(p) && self.props@[p].dirty
    }

    /// The values of all property slots, as a sequence indexed by handle.
    pub open spec fn vals(self) -> Seq<u64> {
        Seq::new(self.props@.len(), |i: int| self.props@[i].value)
    }

    /// The notification count of listener `l`.
    pub open spec fn fires_of(self, l: int) -> u64 {
        self.listeners@[l].fires
    }

    /// Edge slot `k` is a live dependency edge "property `q` reads `x`".
    pub open spec fn dep_edge_is(self, k: int, x: int, q: int) -> bool {
        0 <= k < self.dep_edges@.len() && self.dep_edges@[k].alive
            && self.dep_edges@[k].source as int == x && self.dep_edges@[k].reader as int == q
    }

    /// Some live dependency edge records "property `q` reads `x`".
    pub open spec fn edge_props(self, x: int, q: int) -> bool {
        exists|k: int| self.dep_edge_is(k, x, q)
    }

    /// Edge slot `k` is a live subscription "listener `l` watches `x`".
    pub open spec fn listen_edge_is(self, k: int, x: int, l: int) -> bool {
        0 <= k < self.listen_edges@.len() && self.listen_edges@[k].alive
            && self.listen_edges@[k].source as int == x
            && self.listen_edges@[k].listener as int == l
    }

    /// Some live subscription edge records "listener `l` watches `x`".
    pub open spec fn edge_listener(self, x: int, l: int) -> bool {
        exists|k: int| self.listen_edge_is(k, x, l)
    }

    /// Every live edge joins existing entities — a dependency edge leads from
    /// a live property to a bound one, a subscription edge from a live
    /// property to a listener — and no relation is recorded twice.
    pub open spec fn edges_wf(self) -> bool {
        &&& forall|k: int| 0 <= k < self.dep_edges@.len()
            && (#[trigger] self.dep_edges@[k]).alive ==> self.is_alive(
            self.dep_edges@[k].source as int,
        ) && self.is_bound(self.dep_edges@[k].reader as int)
        &&& forall|k1: int, k2: int| #![trigger self.dep_edges@[k1], self.dep_edges@[k2]]
            0 <= k1 < self.dep_edges@.len() && 0 <= k2 < self.dep_edges@.len()
            && self.dep_edges@[k1].alive && self.dep_edges@[k2].alive
            && self.dep_edges@[k1].source == self.dep_edges@[k2].source
            && self.dep_edges@[k1].reader == self.dep_edges@[k2].reader ==> k1 == k2
        &&& forall|k: int| 0 <= k < self.listen_edges@.len()
            && (#[trigger] self.listen_edges@[k]).alive ==> self.is_alive(
            self.listen_edges@[k].source as int,
        ) && self.valid_listener(self.listen_edges@[k].listener as int)
        &&& forall|k1: int, k2: int| #![trigger self.listen_edges@[k1], self.listen_edges@[k2]]
            0 <= k1 < self.listen_edges@.len() && 0 <= k2 < self.listen_edges@.len()
            && self.listen_edges@[k1].alive && self.listen_edges@[k2].alive
            && self.listen_edges@[k1].source == self.listen_edges@[k2].source
            && self.listen_edges@[k1].listener == self.listen_edges@[k2].listener ==> k1 == k2
    }

    /// Every installed binding mentions only existing property slots.
    pub open spec fn bindings_wf(self) -> bool {
        forall|p: int| #[trigger] self.is_bound(p) ==> valid_binding(self.the_binding(p), self.n())
    }

    /// Only bound properties are ever scheduled for recomputation.
    pub open spec fn dirty_wf(self) -> bool {
        forall|p: int| #[trigger] self.is_dirty(p) ==> self.is_bound(p)
    }

    /// The dirty set is closed under dependency: whatever reads a property
    /// awaiting recomputation awaits recomputation itself.
    pub open spec fn dirty_closed(self) -> bool {
        forall|x: int, q: int| #[trigger] self.edge_props(x, q) && self.is_dirty(x)
            ==> self.is_dirty(q)
    }

    /// Property `q`'s cache and edges are current: its value is its binding
    /// evaluated over the present values, and its reverse-dependency edges
    /// are exactly the live properties that evaluation reads.
    pub open spec fn accurate_at(self, q: int) -> bool {
        &&& self.value_of(q) == eval_spec(self.the_binding(q), self.vals())
        &&& forall|x: int| #[trigger] self.edge_props(x, q) <==> self.is_alive(x)
            && reads_spec(self.the_binding(q), self.vals()).contains(x)
    }

    /// Every bound property not awaiting recomputation is current.
    pub open spec fn accurate(self) -> bool {
        forall|q: int| #[trigger] self.is_bound(q) && !self.is_dirty(q) ==> self.accurate_at(q)
    }

    /// `rank` orders the graph: every property a binding mentions ranks
    /// strictly below the property the binding computes. The existence of
    /// such a rank excludes dependency cycles.
    pub open spec fn rank_ok(self, rank: spec_fn(int) -> nat) -> bool {
        forall|q: int, x: int| (#[trigger] gets_spec(self.the_binding(q)).contains(x))
            && self.is_bound(q) ==> rank(x) < rank(q)
    }

    /// Some rank function orders the installed bindings.
    pub open spec fn acyclic(self) -> bool {
        exists|rank: spec_fn(int) -> nat| self.rank_ok(rank)
    }

    /// The invariant that holds at every step of an update sweep.
    pub open spec fn inv_mid(self) -> bool {
        &&& self.edges_wf()
        &&& self.bindings_wf()
        &&& self.dirty_wf()
        &&& self.dirty_closed()
        &&& self.accurate()
    }

    /// No property awaits recomputation.
    pub open spec fn all_clean(self) -> bool {
        forall|p: int| !(#[trigger] self.is_dirty(p))
    }

    /// The system is at rest: well-formed, fully propagated, and free of
    /// dependency cycles.
    pub open spec fn wf(self) -> bool {
        self.inv_mid() && self.all_clean() && self.acyclic()
    }

    /// `rank` orders the graph that results from installing binding `b` on
    /// property `p` (while every other property keeps its binding).
    pub open spec fn rank_ok_with(self, p: int, b: Binding, rank: spec_fn(int) -> nat) -> bool {
        &&& forall|q: int, x: int| (#[trigger] gets_spec(self.the_binding(q)).contains(x))
            && self.is_bound(q) && q != p ==> rank(x) < rank(q)
        &&& forall|x: int| #[trigger] gets_spec(b).contains(x) ==> rank(x) < rank(p)
    }

    /// Installing binding `b` on property `p` leaves the dependency graph
    /// cycle-free: what a caller of `set_binding` must ensure.
    pub open spec fn can_bind(self, p: int, b: Binding) -> bool {
        exists|rank: spec_fn(int) -> nat| self.rank_ok_with(p, b, rank)
    }

    /// How assigning a literal value to property `p` changes the system:
    /// `p` loses its binding and takes the value; every (transitive)
    /// dependent of `p` is re-evaluated exactly once, over fully-propagated
    /// values; everything else is untouched; and each listener is notified
    /// once per watched property that was assigned or re-evaluated.
    pub open spec fn set_rel(pre: Self, post: Self, p: int, v: u64) -> bool {
        &&& post.wf()
        &&& Self::same_shape(pre, post)
        &&& post.binding_of(p) is None
        &&& post.value_of(p) == v
        &&& post.evals_of(p) == 0
        &&& forall|q: int| pre.valid_prop(q) && q != p ==> #[trigger] post.binding_of(q)
            == pre.binding_of(q)
        &&& forall|q: int| pre.valid_prop(q) && q != p && !reaches_plus(pre, p, q)
            ==> #[trigger] post.value_of(q) == pre.value_of(q)
        &&& forall|q: int| pre.valid_prop(q) && q != p ==> #[trigger] post.evals_of(q)
            == if reaches_plus(pre, p, q) {
            sat_inc(pre.evals_of(q))
        } else {
            pre.evals_of(q)
        }
        &&& forall|l: int| pre.valid_listener(l) ==> #[trigger] post.fires_of(l) == sat_add(
            pre.fires_of(l),
            set_hits(pre, p, l),
        )
        &&& forall|x: int, l: int| #[trigger] post.edge_listener(x, l) == pre.edge_listener(x, l)
        &&& forall|x: int, q: int| pre.valid_prop(q) && q != p && !reaches_plus(pre, p, q)
            ==> #[trigger] post.edge_props(x, q) == pre.edge_props(x, q)
        &&& forall|x: int| !(#[trigger] post.edge_props(x, p))
    }

    /// How installing binding `b` on property `p` changes the system: `p` is
    /// evaluated once immediately, every (transitive) dependent of `p` is
    /// re-evaluated exactly once over fully-propagated values, everything
    /// else is untouched, and each listener is notified once per watched
    /// property that was re-evaluated.
    pub open spec fn set_binding_rel(pre: Self, post: Self, p: int, b: Binding) -> bool {
        &&& post.wf()
        &&& Self::same_shape(pre, post)
        &&& post.binding_of(p) == Some(b)
        &&& post.value_of(p) == eval_spec(b, post.vals())
        &&& post.evals_of(p) == 1
        &&& forall|q: int| pre.valid_prop(q) && q != p ==> #[trigger] post.binding_of(q)
            == pre.binding_of(q)
        &&& forall|q: int| pre.valid_prop(q) && q != p && !reaches_plus(pre, p, q)
            ==> #[trigger] post.value_of(q) == pre.value_of(q)
        &&& forall|q: int| pre.valid_prop(q) && q != p ==> #[trigger] post.evals_of(q)
            == if reaches_plus(pre, p, q) {
            sat_inc(pre.evals_of(q))
        } else {
            pre.evals_of(q)
        }
        &&& forall|l: int| pre.valid_listener(l) ==> #[trigger] post.fires_of(l) == sat_add(
            pre.fires_of(l),
            set_hits(pre, p, l),
        )
        &&& forall|x: int, l: int| #[trigger] post.edge_listener(x, l) == pre.edge_listener(x, l)
        &&& forall|x: int, q: int| pre.valid_prop(q) && q != p && !reaches_plus(pre, p, q)
            ==> #[trigger] post.edge_props(x, q) == pre.edge_props(x, q)
    }

    /// How destroying property `p` changes the system: `p` goes dead and
    /// loses its binding, every edge touching `p` (in either direction) is
    /// unlinked, and everything else — including every other property's value
    /// and the dependents' bindings — is untouched.
    pub open spec fn destroy_rel(pre: Self, post: Self, p: int) -> bool {
        &&& post.wf()
        &&& post.n() == pre.n()
        &&& post.n_listeners() == pre.n_listeners()
        &&& !post.is_alive(p)
        &&& forall|q: int| q != p ==> #[trigger] post.is_alive(q) == pre.is_alive(q)
        &&& forall|q: int| pre.valid_prop(q) ==> #[trigger] post.value_of(q) == pre.value_of(q)
        &&& post.binding_of(p) is None
        &&& forall|q: int| pre.valid_prop(q) && q != p ==> #[trigger] post.binding_of(q)
            == pre.binding_of(q) && post.evals_of(q) == pre.evals_of(q)
        &&& forall|l: int| pre.valid_listener(l) ==> #[trigger] post.fires_of(l) == pre.fires_of(
            l,
        )
        &&& forall|x: int, q: int| #[trigger] post.edge_props(x, q) == (pre.edge_props(x, q) && x
            != p && q != p)
        &&& forall|x: int, l: int| #[trigger] post.edge_listener(x, l) == (pre.edge_listener(x, l)
            && x != p)
    }

    /// The two systems have the same slots: equally many properties and
    /// listeners, with the same properties alive.
    pub open spec fn same_shape(pre: Self, post: Self) -> bool {
        &&& post.n() == pre.n()
        &&& post.n_listeners() == pre.n_listeners()
        &&& forall|p: int| #[trigger] post.is_alive(p) == pre.is_alive(p)
    }

    /// Every property carries the same binding in both systems.
    pub open spec fn bindings_unchanged(pre: Self, post: Self) -> bool {
        forall|p: int| pre.valid_prop(p) ==> #[trigger] post.binding_of(p) == pre.binding_of(p)
    }

    /// How one step of an update sweep changes the system: the invariant is
    /// kept, the shape and the bindings stay, the dirty set only shrinks,
    /// clean properties keep their values and edges, every property that goes
    /// clean has its binding evaluated once, and every listener is notified
    /// once per watched property that went clean.
    pub open spec fn sweep_step(pre: Self, post: Self) -> bool {
        &&& post.inv_mid()
        &&& Self::same_shape(pre, post)
        &&& Self::bindings_unchanged(pre, post)
        &&& forall|q: int| #[trigger] post.is_dirty(q) ==> pre.is_dirty(q)
        &&& forall|q: int| pre.valid_prop(q) && !pre.is_dirty(q) ==> #[trigger] post.value_of(q)
            == pre.value_of(q)
        &&& forall|q: int| pre.valid_prop(q) ==> #[trigger] post.evals_of(q) == if pre.is_dirty(q)
            && !post.is_dirty(q) {
            sat_inc(pre.evals_of(q))
        } else {
            pre.evals_of(q)
        }
        &&& forall|l: int| pre.valid_listener(l) ==> #[trigger] post.fires_of(l) == sat_add(
            pre.fires_of(l),
            cleaned_hits(pre, post, l),
        )
        &&& forall|x: int, l: int| #[trigger] post.edge_listener(x, l) == pre.edge_listener(x, l)
        &&& forall|x: int, q: int| !pre.is_dirty(q) ==> #[trigger] post.edge_props(x, q)
            == pre.edge_props(x, q)
    }

    /// Unlink every dependency edge whose reader is `x`: clearing `x`'s
    /// reverse-dependency list before its binding re-runs or is replaced.
    fn kill_reader_edges(&mut self, x: usize)
        ensures
            final(self).props@ == old(self).props@,
            final(self).listeners@ == old(self).listeners@,
            final(self).listen_edges@ == old(self).listen_edges@,
            final(self).dep_edges@.len() == old(self).dep_edges@.len(),
            forall|k: int| 0 <= k < old(self).dep_edges@.len() ==> #[trigger] final(self).dep_edges@[k] == if old(self).dep_edges@[k].reader == x {
                DependencyNode { alive: false, ..old(self).dep_edges@[k] }
            } else {
                old(self).dep_edges@[k]
            },
            forall|y: int, q: int| q != x as int ==> #[trigger] final(self).edge_props(y, q)
                == old(self).edge_props(y, q),
            forall|y: int| !(#[trigger] final(self).edge_props(y, x as int)),
    {
        let ghost pre = *self;
        let n = self.dep_edges.len();
        let mut k: usize = 0;
        while k < n
            invariant
                n == self.dep_edges.len(),
                k <= n,
                self.props@ == pre.props@,
                self.listeners@ == pre.listeners@,
                self.listen_edges@ == pre.listen_edges@,
                self.dep_edges@.len() == pre.dep_edges@.len(),
                forall|j: int| k <= j < n ==> #[trigger] self.dep_edges@[j] == pre.dep_edges@[j],
                forall|j: int| 0 <= j < k ==> #[trigger] self.dep_edges@[j] == if pre.dep_edges@[j].reader == x {
                    DependencyNode { alive: false, ..pre.dep_edges@[j] }
                } else {
                    pre.dep_edges@[j]
                },
            decreases n - k,
        {
            if self.dep_edges[k].reader == x {
                self.dep_edges[k].alive = false;
            }
            k += 1;
        }
        proof {
            assert forall|y: int, q: int| q != x as int implies #[trigger] self.edge_props(y, q)
                == pre.edge_props(y, q) by {
                if self.edge_props(y, q) {
                    let j = choose|j: int| self.dep_edge_is(j, y, q);
                    assert(pre.dep_edge_is(j, y, q));
                }
                if pre.edge_props(y, q) {
                    let j = choose|j: int| pre.dep_edge_is(j, y, q);
                    assert(self.dep_edge_is(j, y, q));
                }
            }
            assert forall|y: int| !(#[trigger] self.edge_props(y, x as int)) by {
                if self.edge_props(y, x as int) {
                    let j = choose|j: int| self.dep_edge_is(j, y, x as int);
                    assert(pre.dep_edges@[j].reader == x);
                    assert(!self.dep_edges@[j].alive);
                }
            }
        }
    }

    /// Unlink every edge that touches property `p`, in either direction:
    /// part of destroying `p`.
    fn kill_edges_touching(&mut self, p: usize)
        ensures
            final(self).props@ == old(self).props@,
            final(self).listeners@ == old(self).listeners@,
            final(self).dep_edges@.len() == old(self).dep_edges@.len(),
            forall|k: int| 0 <= k < old(self).dep_edges@.len() ==> #[trigger] final(self).dep_edges@[k] == if old(self).dep_edges@[k].reader == p || old(self).dep_edges@[k].source == p {
                DependencyNode { alive: false, ..old(self).dep_edges@[k] }
            } else {
                old(self).dep_edges@[k]
            },
            final(self).listen_edges@.len() == old(self).listen_edges@.len(),
            forall|k: int| 0 <= k < old(self).listen_edges@.len() ==> #[trigger] final(self).listen_edges@[k] == if old(self).listen_edges@[k].source == p {
                ListenNode { alive: false, ..old(self).listen_edges@[k] }
            } else {
                old(self).listen_edges@[k]
            },
            forall|y: int, q: int| #[trigger] final(self).edge_props(y, q) == (old(self).edge_props(y, q) && y != p as int && q != p as int),
            forall|y: int, l: int| #[trigger] final(self).edge_listener(y, l) == (old(self).edge_listener(y, l) && y != p as int),
    {
        let ghost pre = *self;
        let n = self.dep_edges.len();
        let mut k: usize = 0;
        while k < n
            invariant
                n == self.dep_edges.len(),
                k <= n,
                self.props@ == pre.props@,
                self.listeners@ == pre.listeners@,
                self.listen_edges@ == pre.listen_edges@,
                self.dep_edges@.len() == pre.dep_edges@.len(),
                forall|j: int| k <= j < n ==> #[trigger] self.dep_edges@[j] == pre.dep_edges@[j],
                forall|j: int| 0 <= j < k ==> #[trigger] self.dep_edges@[j] == if pre.dep_edges@[j].reader == p || pre.dep_edges@[j].source == p {
                    DependencyNode { alive: false, ..pre.dep_edges@[j] }
                } else {
                    pre.dep_edges@[j]
                },
            decreases n - k,
        {
            if self.dep_edges[k].reader == p || self.dep_edges[k].source == p {
                self.dep_edges[k].alive = false;
            }
            k += 1;
        }
        let m = self.listen_edges.len();
        let mut k2: usize = 0;
        while k2 < m
            invariant
                m == self.listen_edges.len(),
                k2 <= m,
                self.props@ == pre.props@,
                self.listeners@ == pre.listeners@,
                self.dep_edges@.len() == pre.dep_edges@.len(),
                forall|j: int| 0 <= j < self.dep_edges@.len() ==> #[trigger] self.dep_edges@[j]
                    == if pre.dep_edges@[j].reader == p || pre.dep_edges@[j].source == p {
                    DependencyNode { alive: false, ..pre.dep_edges@[j] }
                } else {
                    pre.dep_edges@[j]
                },
                self.listen_edges@.len() == pre.listen_edges@.len(),
                forall|j: int| k2 <= j < m ==> #[trigger] self.listen_edges@[j]
                    == pre.listen_edges@[j],
                forall|j: int| 0 <= j < k2 ==> #[trigger] self.listen_edges@[j] == if pre
                    .listen_edges@[j].source == p {
                    ListenNode { alive: false, ..pre.listen_edges@[j] }
                } else {
                    pre.listen_edges@[j]
                },
            decreases m - k2,
        {
            if self.listen_edges[k2].source == p {
                self.listen_edges[k2].alive = false;
            }
            k2 += 1;
        }
        proof {
            assert forall|y: int, q: int| #[trigger] self.edge_props(y, q) == (pre.edge_props(y, q)
                && y != p as int && q != p as int) by {
                if self.edge_props(y, q) {
                    let j = choose|j: int| self.dep_edge_is(j, y, q);
                    assert(pre.dep_edge_is(j, y, q));
                    assert(pre.dep_edges@[j].source != p && pre.dep_edges@[j].reader != p);
                }
                if pre.edge_props(y, q) && y != p as int && q != p as int {
                    let j = choose|j: int| pre.dep_edge_is(j, y, q);
                    assert(self.dep_edge_is(j, y, q));
                }
            }
            assert forall|y: int, l: int| #[trigger] self.edge_listener(y, l) == (pre.edge_listener(
                y,
                l,
            ) && y != p as int) by {
                if self.edge_listener(y, l) {
                    let j = choose|j: int| self.listen_edge_is(j, y, l);
                    assert(pre.listen_edge_is(j, y, l));
                    assert(pre.listen_edges@[j].source != p);
                }
                if pre.edge_listener(y, l) && y != p as int {
                    let j = choose|j: int| pre.listen_edge_is(j, y, l);
                    assert(self.listen_edge_is(j, y, l));
                }
            }
        }
    }

    /// Record the dependency "property `q` reads `x`": one edge, linked into
    /// `x`'s notify list and `q`'s reverse-dependency list. Recording the
    /// same dependency again is a no-op.
    fn add_dependency(&mut self, x: usize, q: usize)
        requires
            old(self).edges_wf(),
            old(self).is_alive(x as int),
            old(self).is_bound(q as int),
        ensures
            final(self).props@ == old(self).props@,
            final(self).listeners@ == old(self).listeners@,
            final(self).listen_edges@ == old(self).listen_edges@,
            final(self).edges_wf(),
            forall|y: int, r: int| #[trigger] final(self).edge_props(y, r) == (old(self).edge_props(y, r) || (y == x as int && r == q as int)),
    {
        let ghost pre = *self;
        let n = self.dep_edges.len();
        let mut found = false;
        let mut k: usize = 0;
        while k < n
            invariant
                *self == pre,
                n == self.dep_edges.len(),
                k <= n,
                found == exists|j: int| 0 <= j < k && pre.dep_edge_is(j, x as int, q as int),
            decreases n - k,
        {
            if self.dep_edges[k].alive && self.dep_edges[k].source == x && self.dep_edges[k].reader
                == q {
                found = true;
                proof {
                    assert(pre.dep_edge_is(k as int, x as int, q as int));
                }
            }
            k += 1;
        }
        if !found {
            self.dep_edges.push(DependencyNode { alive: true, source: x, reader: q });
        }
        proof {
            assert forall|y: int, r: int| #[trigger] self.edge_props(y, r) == (pre.edge_props(y, r)
                || (y == x as int && r == q as int)) by {
                if self.edge_props(y, r) {
                    let j = choose|j: int| self.dep_edge_is(j, y, r);
                    if j < pre.dep_edges@.len() {
                        assert(pre.dep_edge_is(j, y, r));
                    } else {
                        assert(y == x as int && r == q as int);
                    }
                }
                if pre.edge_props(y, r) {
                    let j = choose|j: int| pre.dep_edge_is(j, y, r);
                    assert(self.dep_edge_is(j, y, r));
                }
                if y == x as int && r == q as int {
                    if found {
                        let j = choose|j: int| 0 <= j < n && pre.dep_edge_is(j, x as int, q as int);
                        assert(self.dep_edge_is(j, y, r));
                    } else {
                        assert(self.dep_edge_is(pre.dep_edges@.len() as int, y, r));
                    }
                }
            }
            assert forall|k1: int, k2: int| #![trigger self.dep_edges@[k1], self.dep_edges@[k2]]
                0 <= k1 < self.dep_edges@.len() && 0 <= k2 < self.dep_edges@.len()
                && self.dep_edges@[k1].alive && self.dep_edges@[k2].alive
                && self.dep_edges@[k1].source == self.dep_edges@[k2].source
                && self.dep_edges@[k1].reader == self.dep_edges@[k2].reader implies k1 == k2 by {
                if k1 != k2 {
                    if k1 < pre.dep_edges@.len() && k2 < pre.dep_edges@.len() {
                        assert(pre.dep_edges@[k1] == self.dep_edges@[k1]);
                    } else if k1 < pre.dep_edges@.len() {
                        assert(pre.dep_edge_is(k1, x as int, q as int));
                    } else if k2 < pre.dep_edges@.len() {
                        assert(pre.dep_edge_is(k2, x as int, q as int));
                    }
                }
            }
        }
    }

    /// Subscribe listener `l` to property `x`. Subscribing twice to the same
    /// property is a no-op.
    fn add_listen_edge(&mut self, x: usize, l: usize)
        requires
            old(self).edges_wf(),
            old(self).is_alive(x as int),
            old(self).valid_listener(l as int),
        ensures
            final(self).props@ == old(self).props@,
            final(self).listeners@ == old(self).listeners@,
            final(self).dep_edges@ == old(self).dep_edges@,
            final(self).edges_wf(),
            forall|y: int, m: int| #[trigger] final(self).edge_listener(y, m) == (old(self).edge_listener(y, m) || (y == x as int && m == l as int)),
    {
        let ghost pre = *self;
        let n = self.listen_edges.len();
        let mut found = false;
        let mut k: usize = 0;
        while k < n
            invariant
                *self == pre,
                n == self.listen_edges.len(),
                k <= n,
                found == exists|j: int| 0 <= j < k && pre.listen_edge_is(j, x as int, l as int),
            decreases n - k,
        {
            if self.listen_edges[k].alive && self.listen_edges[k].source == x
                && self.listen_edges[k].listener == l {
                found = true;
                proof {
                    assert(pre.listen_edge_is(k as int, x as int, l as int));
                }
            }
            k += 1;
        }
        if !found {
            self.listen_edges.push(ListenNode { alive: true, source: x, listener: l });
        }
        proof {
            assert forall|y: int, m: int| #[trigger] self.edge_listener(y, m) == (pre.edge_listener(
                y,
                m,
            ) || (y == x as int && m == l as int)) by {
                if self.edge_listener(y, m) {
                    let j = choose|j: int| self.listen_edge_is(j, y, m);
                    if j < pre.listen_edges@.len() {
                        assert(pre.listen_edge_is(j, y, m));
                    } else {
                        assert(y == x as int && m == l as int);
                    }
                }
                if pre.edge_listener(y, m) {
                    let j = choose|j: int| pre.listen_edge_is(j, y, m);
                    assert(self.listen_edge_is(j, y, m));
                }
                if y == x as int && m == l as int {
                    if found {
                        let j = choose|j: int|
                            0 <= j < n && pre.listen_edge_is(j, x as int, l as int);
                        assert(self.listen_edge_is(j, y, m));
                    } else {
                        assert(self.listen_edge_is(pre.listen_edges@.len() as int, y, m));
                    }
                }
            }
            assert forall|k1: int, k2: int|
                #![trigger self.listen_edges@[k1], self.listen_edges@[k2]]
                0 <= k1 < self.listen_edges@.len() && 0 <= k2 < self.listen_edges@.len()
                && self.listen_edges@[k1].alive && self.listen_edges@[k2].alive
                && self.listen_edges@[k1].source == self.listen_edges@[k2].source
                && self.listen_edges@[k1].listener == self.listen_edges@[k2].listener implies k1
                == k2 by {
                if k1 != k2 {
                    if k1 < pre.listen_edges@.len() && k2 < pre.listen_edges@.len() {
                        assert(pre.listen_edges@[k1] == self.listen_edges@[k1]);
                    } else if k1 < pre.listen_edges@.len() {
                        assert(pre.listen_edge_is(k1, x as int, l as int));
                    } else if k2 < pre.listen_edges@.len() {
                        assert(pre.listen_edge_is(k2, x as int, l as int));
                    }
                }
            }
        }
    }

    /// Notify every listener subscribed to `x` once: each subscription edge
    /// is consumed and immediately re-created, so the net effect on the graph
    /// is none and each subscribed listener's count grows by one.
    fn fire_listeners_of(&mut self, x: usize)
        requires
            old(self).edges_wf(),
        ensures
            final(self).props@ == old(self).props@,
            final(self).dep_edges@ == old(self).dep_edges@,
            final(self).listen_edges@ == old(self).listen_edges@,
            final(self).listeners@.len() == old(self).listeners@.len(),
            forall|l: int| old(self).valid_listener(l) ==> #[trigger] final(self).fires_of(l)
                == if old(self).edge_listener(x as int, l) {
                sat_inc(old(self).fires_of(l))
            } else {
                old(self).fires_of(l)
            },
    {
        let ghost pre = *self;
        let n = self.listen_edges.len();
        let mut k: usize = 0;
        while k < n
            invariant
                pre.edges_wf(),
                n == self.listen_edges.len(),
                k <= n,
                self.props@ == pre.props@,
                self.dep_edges@ == pre.dep_edges@,
                self.listen_edges@ == pre.listen_edges@,
                self.listeners@.len() == pre.listeners@.len(),
                forall|l: int| pre.valid_listener(l) ==> #[trigger] self.fires_of(l) == if exists|
                    j: int,
                |
                    0 <= j < k && pre.listen_edge_is(j, x as int, l) {
                    sat_inc(pre.fires_of(l))
                } else {
                    pre.fires_of(l)
                },
            decreases n - k,
        {
            if self.listen_edges[k].alive && self.listen_edges[k].source == x {
                let l = self.listen_edges[k].listener;
                proof {
                    assert(pre.listen_edge_is(k as int, x as int, l as int));
                    assert(pre.valid_listener(l as int));
                    assert forall|j: int| 0 <= j < k implies !pre.listen_edge_is(
                        j,
                        x as int,
                        l as int,
                    ) by {
                        if pre.listen_edge_is(j, x as int, l as int) {
                            assert(pre.listen_edges@[j].alive && pre.listen_edges@[k as int].alive
                                && pre.listen_edges@[j].source == pre.listen_edges@[
                                k as int
                            ].source && pre.listen_edges@[j].listener == pre.listen_edges@[
                                k as int
                            ].listener);
                        }
                    }
                }
                proof {
                    assert(!exists|j: int| 0 <= j < k && pre.listen_edge_is(j, x as int, l as int))
                        by {
                        if exists|j: int| 0 <= j < k && pre.listen_edge_is(j, x as int, l as int) {
                            let j = choose|j: int|
                                0 <= j < k && pre.listen_edge_is(j, x as int, l as int);
                            assert(!pre.listen_edge_is(j, x as int, l as int));
                        }
                    }
                    assert(self.fires_of(l as int) == pre.fires_of(l as int));
                }
                let ghost at_head = *self;
                let bumped = inc_saturating(self.listeners[l].fires);
                self.listeners[l].fires = bumped;
                proof {
                    assert(self.fires_of(l as int) == sat_inc(pre.fires_of(l as int)));
                    assert forall|m: int| pre.valid_listener(m) implies #[trigger] self.fires_of(m)
                        == if exists|j: int| 0 <= j < k + 1 && pre.listen_edge_is(j, x as int, m) {
                        sat_inc(pre.fires_of(m))
                    } else {
                        pre.fires_of(m)
                    } by {
                        if m == l as int {
                            assert(pre.listen_edge_is(k as int, x as int, m));
                        } else {
                            assert(self.fires_of(m) == at_head.fires_of(m));
                            if exists|j: int| 0 <= j < k + 1 && pre.listen_edge_is(j, x as int, m) {
                                let j = choose|j: int|
                                    0 <= j < k + 1 && pre.listen_edge_is(j, x as int, m);
                                assert(j < k || j == k);
                                assert(0 <= j < k && pre.listen_edge_is(j, x as int, m));
                            }
                        }
                    }
                }
            } else {
                proof {
                    assert forall|m: int| pre.valid_listener(m) implies #[trigger] self.fires_of(m)
                        == if exists|j: int| 0 <= j < k + 1 && pre.listen_edge_is(j, x as int, m) {
                        sat_inc(pre.fires_of(m))
                    } else {
                        pre.fires_of(m)
                    } by {
                        if exists|j: int| 0 <= j < k + 1 && pre.listen_edge_is(j, x as int, m) {
                            let j = choose|j: int|
                                0 <= j < k + 1 && pre.listen_edge_is(j, x as int, m);
                            assert(0 <= j < k && pre.listen_edge_is(j, x as int, m));
                        }
                    }
                }
            }
            k += 1;
        }
        proof {
            assert forall|l: int| pre.valid_listener(l) implies #[trigger] self.fires_of(l)
                == if pre.edge_listener(x as int, l) {
                sat_inc(pre.fires_of(l))
            } else {
                pre.fires_of(l)
            } by {
                if pre.edge_listener(x as int, l) {
                    let j = choose|j: int| pre.listen_edge_is(j, x as int, l);
                    assert(0 <= j < n && pre.listen_edge_is(j, x as int, l));
                }
                if exists|j: int| 0 <= j < n && pre.listen_edge_is(j, x as int, l) {
                    let j = choose|j: int| 0 <= j < n && pre.listen_edge_is(j, x as int, l);
                    assert(pre.edge_listener(x as int, l));
                }
            }
        }
    }

    /// Mark every (transitive, proper) dependent of `start` as awaiting
    /// recomputation: the first half of an update sweep. Nothing but dirty
    /// flags changes.
    fn mark_dependents_dirty(&mut self, start: usize)
        requires
            old(self).edges_wf(),
            old(self).dirty_wf(),
            start < old(self).props.len(),
            forall|q: int| old(self).is_dirty(q) ==> q == start as int,
        ensures
            final(self).props@.len() == old(self).props@.len(),
            final(self).listeners@ == old(self).listeners@,
            final(self).dep_edges@ == old(self).dep_edges@,
            final(self).listen_edges@ == old(self).listen_edges@,
            forall|q: int| 0 <= q < old(self).props@.len() ==> (#[trigger] final(self).props@[q]).alive == old(self).props@[q].alive && final(self).props@[q].value == old(self).props@[q].value && final(self).props@[q].binding == old(self).props@[q].binding,
            forall|q: int| #[trigger] final(self).is_dirty(q) == (old(self).is_dirty(q)
                || reaches_plus(*old(self), start as int, q)),
            final(self).dirty_wf(),
            final(self).dirty_closed(),
    {
        let ghost pre = *self;
        let mut stack: Vec<usize> = Vec::new();
        stack.push(start);
        proof {
            assert(stack@[0] == start);
        }
        while stack.len() > 0
            invariant
                pre.edges_wf(),
                pre.dirty_wf(),
                (start as int) < pre.n(),
                forall|q: int| pre.is_dirty(q) ==> q == start as int,
                self.props@.len() == pre.props@.len(),
                self.listeners@ == pre.listeners@,
                self.dep_edges@ == pre.dep_edges@,
                self.listen_edges@ == pre.listen_edges@,
                forall|q: int| 0 <= q < pre.props@.len() ==> (#[trigger] self.props@[q]).alive
                    == pre.props@[q].alive && self.props@[q].value == pre.props@[q].value
                    && self.props@[q].binding == pre.props@[q].binding,
                forall|q: int| pre.is_dirty(q) ==> self.is_dirty(q),
                forall|q: int| #[trigger] self.is_dirty(q) ==> pre.is_dirty(q) || reaches_plus(
                    pre,
                    start as int,
                    q,
                ),
                self.dirty_wf(),
                forall|j: int| 0 <= j < stack@.len() ==> (#[trigger] stack@[j]) < pre.props@.len()
                    && (stack@[j] == start || self.is_dirty(stack@[j] as int)),
                forall|q2: int, r: int| (q2 == start as int || self.is_dirty(q2))
                    && #[trigger] self.edge_props(q2, r) && !stack_has(stack@, q2)
                    ==> self.is_dirty(r),
            decreases count_true(|p: int| !self.is_dirty(p), pre.props@.len() as nat), stack@.len(),
        {
            let ghost head = *self;
            let ghost head_stack = stack@;
            let ghost clean_head = |p: int| !head.is_dirty(p);
            let q = stack.pop().unwrap();
            proof {
                assert forall|q2: int, r: int| (q2 == start as int || self.is_dirty(q2))
                    && #[trigger] self.edge_props(q2, r) && !stack_has(stack@, q2) && q2 != (
                q as int) implies self.is_dirty(r) by {
                    assert(!stack_has(head_stack, q2)) by {
                        if stack_has(head_stack, q2) {
                            let j = choose|j: int|
                                0 <= j < head_stack.len() && (#[trigger] head_stack[j]) as int
                                    == q2;
                            if j < head_stack.len() - 1 {
                                assert(stack@[j] as int == q2);
                                assert(stack_has(stack@, q2));
                            } else {
                                assert(head_stack[j] == q);
                            }
                        }
                    }
                }
            }
            let ghost mut new_mark: Option<int> = None;
            let n_edges = self.dep_edges.len();
            let mut k: usize = 0;
            while k < n_edges
                invariant
                    pre.edges_wf(),
                    pre.dirty_wf(),
                    (start as int) < pre.n(),
                    forall|q2: int| pre.is_dirty(q2) ==> q2 == start as int,
                    n_edges == self.dep_edges.len(),
                    k <= n_edges,
                    (q as int) == head_stack.last(),
                    q == start || head.is_dirty(q as int),
                    (q as int) < pre.n(),
                    stack@.len() >= head_stack.len() - 1,
                    self.props@.len() == pre.props@.len(),
                    self.listeners@ == pre.listeners@,
                    self.dep_edges@ == pre.dep_edges@,
                    self.listen_edges@ == pre.listen_edges@,
                    forall|q2: int| 0 <= q2 < pre.props@.len() ==> (#[trigger] self.props@[q2]).alive == pre.props@[q2].alive && self.props@[q2].value == pre.props@[q2].value && self.props@[q2].binding == pre.props@[q2].binding,
                    forall|q2: int| head.is_dirty(q2) ==> self.is_dirty(q2),
                    forall|q2: int| pre.is_dirty(q2) ==> self.is_dirty(q2),
                    forall|q2: int| #[trigger] self.is_dirty(q2) ==> pre.is_dirty(q2)
                        || reaches_plus(pre, start as int, q2),
                    self.dirty_wf(),
                    forall|j: int| 0 <= j < stack@.len() ==> (#[trigger] stack@[j])
                        < pre.props@.len() && (stack@[j] == start || self.is_dirty(
                        stack@[j] as int,
                    )),
                    forall|q2: int, r: int| (q2 == start as int || self.is_dirty(q2))
                        && #[trigger] self.edge_props(q2, r) && !stack_has(stack@, q2) && q2 != (
                    q as int) ==> self.is_dirty(r),
                    forall|j: int| 0 <= j < k && (#[trigger] self.dep_edges@[j]).alive
                        && self.dep_edges@[j].source as int == q as int ==> self.is_dirty(
                        self.dep_edges@[j].reader as int,
                    ),
                    new_mark is Some ==> {
                        let w = new_mark->0;
                        0 <= w < pre.props@.len() && !head.is_dirty(w) && self.is_dirty(w)
                    },
                    new_mark is None ==> (forall|q2: int| #[trigger] self.is_dirty(q2)
                        == head.is_dirty(q2)) && stack@ == head_stack.drop_last(),
                decreases n_edges - k,
            {
                let e_alive = self.dep_edges[k].alive;
                let e_source = self.dep_edges[k].source;
                let e_reader = self.dep_edges[k].reader;
                if e_alive && e_source == q {
                    proof {
                        assert(pre.dep_edge_is(k as int, q as int, e_reader as int));
                        assert(pre.is_bound(e_reader as int));
                    }
                    if !self.props[e_reader].dirty {
                        let ghost before_mark = *self;
                        let ghost before_mark_stack = stack@;
                        self.props[e_reader].dirty = true;
                        stack.push(e_reader);
                        proof {
                            if new_mark is None {
                                new_mark = Some(e_reader as int);
                            }
                            lemma_same_dep_edges(pre, before_mark);
                            assert(before_mark.edge_props(q as int, e_reader as int)) by {
                                assert(before_mark.dep_edge_is(k as int, q as int, e_reader as int));
                            }
                            assert(pre.edge_props(q as int, e_reader as int));
                            if q == start {
                                lemma_reach_step(pre, start as int, q as int, e_reader as int);
                            } else {
                                assert(head.is_dirty(q as int));
                                assert(self.is_dirty(q as int));
                                if pre.is_dirty(q as int) {
                                    assert(q == start);
                                } else {
                                    assert(reaches_plus(pre, start as int, q as int));
                                }
                                lemma_reach_step(pre, start as int, q as int, e_reader as int);
                            }
                            assert(self.is_bound(e_reader as int)) by {
                                assert(pre.props@[e_reader as int].binding == self.props@[
                                    e_reader as int
                                ].binding);
                                assert(pre.props@[e_reader as int].alive == self.props@[
                                    e_reader as int
                                ].alive);
                            }
                            assert(stack@.last() == e_reader);
                            assert(stack_has(stack@, e_reader as int)) by {
                                assert((stack@[stack@.len() - 1]) as int == e_reader as int);
                            }
                            // only `e_reader`'s dirty flag changed
                            assert forall|q2: int| q2 != e_reader as int implies #[trigger] self
                                .is_dirty(q2) == before_mark.is_dirty(q2) by {
                                if before_mark.valid_prop(q2) {
                                    assert(self.props@[q2] == before_mark.props@[q2]);
                                }
                            }
                            assert forall|q2: int| #[trigger] self.is_dirty(q2) implies pre
                                .is_dirty(q2) || reaches_plus(pre, start as int, q2) by {
                                if q2 != e_reader as int {
                                    assert(before_mark.is_dirty(q2));
                                }
                            }
                            assert forall|q2: int| #[trigger] self.is_dirty(q2) implies self
                                .is_bound(q2) by {
                                if q2 != e_reader as int {
                                    assert(before_mark.is_dirty(q2));
                                    assert(before_mark.is_bound(q2));
                                    assert(self.props@[q2] == before_mark.props@[q2]);
                                }
                            }
                            assert forall|q2: int, r: int| (q2 == start as int || self.is_dirty(
                                q2,
                            )) && #[trigger] self.edge_props(q2, r) && !stack_has(stack@, q2) && q2
                                != (q as int) implies self.is_dirty(r) by {
                                assert(!stack_has(stack@.drop_last(), q2)) by {
                                    if stack_has(stack@.drop_last(), q2) {
                                        let j = choose|j: int|
                                            0 <= j < stack@.drop_last().len() && (
                                            #[trigger] stack@.drop_last()[j]) as int == q2;
                                        assert(stack@[j] as int == q2);
                                        assert(stack_has(stack@, q2));
                                    }
                                }
                                assert(q2 != e_reader as int);
                                assert(before_mark.is_dirty(q2) || q2 == start as int);
                                assert(before_mark.edge_props(q2, r)) by {
                                    let j = choose|j: int| self.dep_edge_is(j, q2, r);
                                    assert(before_mark.dep_edge_is(j, q2, r));
                                }
                                assert(stack@.drop_last() =~= before_mark_stack);
                                assert(before_mark.is_dirty(r) || r == e_reader as int);
                            }
                        }
                    }
                }
                k += 1;
            }
            proof {
                // the popped property's edges are now all covered
                assert forall|q2: int, r: int| (q2 == start as int || self.is_dirty(q2))
                    && #[trigger] self.edge_props(q2, r) && !stack_has(stack@, q2) implies self
                    .is_dirty(r) by {
                    if q2 == q as int {
                        let j = choose|j: int| self.dep_edge_is(j, q2, r);
                        assert(self.dep_edges@[j].alive && self.dep_edges@[j].source as int == q
                            as int);
                        assert(self.is_dirty(self.dep_edges@[j].reader as int));
                    }
                }
                // termination
                match new_mark {
                    Some(w) => {
                        lemma_count_true_strict(
                            clean_head,
                            |p: int| !self.is_dirty(p),
                            pre.props@.len() as nat,
                            w,
                        );
                    },
                    None => {
                        lemma_count_true_equiv(
                            clean_head,
                            |p: int| !self.is_dirty(p),
                            pre.props@.len() as nat,
                        );
                        assert(stack@.len() < head_stack.len());
                    },
                }
            }
        }
        proof {
            lemma_same_dep_edges(pre, *self);
            assert forall|q: int| #[trigger] self.is_dirty(q) == (pre.is_dirty(q) || reaches_plus(
                pre,
                start as int,
                q,
            )) by {
                if reaches_plus(pre, start as int, q) && !self.is_dirty(q) {
                    let path = choose|path: Seq<int>|
                        path.len() >= 2 && path[0] == start as int && path.last() == q
                            && #[trigger] dep_path(pre, path);
                    assert forall|i: int| 0 <= i < path.len() - 1 implies #[trigger] self
                        .edge_props(path[i], path[i + 1]) by {
                        assert(pre.edge_props(path[i], path[i + 1]));
                    }
                    assert(dep_path(*self, path));
                    assert forall|q2: int, r: int| (q2 == start as int || self.is_dirty(q2))
                        && #[trigger] self.edge_props(q2, r) implies self.is_dirty(r) by {
                        assert(!stack_has(stack@, q2));
                    }
                    lemma_dirty_covers_path(*self, start as int, path);
                }
            }
            assert forall|x: int, q: int| #[trigger] self.edge_props(x, q) && self.is_dirty(x)
                implies self.is_dirty(q) by {
                assert(!stack_has(stack@, x));
            }
        }
    }

    /// Evaluate a binding on behalf of the dirty property `reader`, the
    /// entity currently being recomputed (the evaluation context of the
    /// engine, here an explicit parameter). Each `Get` first recomputes the
    /// property it reads, if that one awaits recomputation itself, then
    /// registers a dependency edge; so every value the evaluation returns is
    /// already fully propagated, and the edges registered for `reader` are
    /// exactly this run's reads.
    fn eval_binding(&mut self, b: &Binding, reader: usize, Ghost(rank): Ghost<spec_fn(int) -> nat>)
        -> (v: u64)
        requires
            old(self).inv_mid(),
            old(self).rank_ok(rank),
            old(self).is_dirty(reader as int),
            valid_binding(*b, old(self).n()),
            forall|y: int| #[trigger] gets_spec(*b).contains(y) ==> rank(y) < rank(reader as int),
        ensures
            PropertySystem::sweep_step(*old(self), *final(self)),
            final(self).is_dirty(reader as int),
            v == eval_spec(*b, final(self).vals()),
            forall|y: int| #[trigger] reads_spec(*b, final(self).vals()).contains(y) ==> !final(self).is_dirty(y),
            forall|y: int| #[trigger] final(self).edge_props(y, reader as int) == (old(self).edge_props(y, reader as int) || (final(self).is_alive(y) && reads_spec(
                *b,
                final(self).vals(),
            ).contains(y))),
            forall|y: int, q: int| q != reader as int && final(self).is_dirty(q)
                ==> #[trigger] final(self).edge_props(y, q) == old(self).edge_props(y, q),
            forall|q: int| rank(q) >= rank(reader as int) ==> #[trigger] final(self).is_dirty(q)
                == old(self).is_dirty(q),
        decreases rank(reader as int), 0int, bsize(*b),
    {
        let ghost pre = *self;
        match b {
            Binding::Lit(cv) => {
                proof {
                    lemma_sweep_step_refl(*self);
                }
                *cv
            },
            Binding::Get(p) => {
                let pp = *p;
                proof {
                    assert(gets_spec(*b).contains(pp as int));
                    assert(rank(pp as int) < rank(reader as int));
                    assert((pp as int) < pre.n());
                }
                self.ensure_updated(pp, Ghost(rank));
                let ghost s1 = *self;
                proof {
                    assert(s1.is_dirty(reader as int));
                    assert(s1.is_bound(reader as int));
                    assert(s1.rank_ok(rank)) by {
                        lemma_rank_ok_transfer(pre, s1, rank);
                    }
                }
                let val = self.props[pp].value;
                let p_alive = self.props[pp].alive;
                if p_alive {
                    self.add_dependency(pp, reader);
                }
                let ghost s2 = *self;
                proof {
                    if p_alive {
                        lemma_props_transfer(s1, s2);
                        assert(s2.inv_mid()) by {
                            assert forall|x2: int, q2: int| #[trigger] s2.edge_props(x2, q2)
                                && s2.is_dirty(x2) implies s2.is_dirty(q2) by {
                                if x2 == pp as int && q2 == reader as int {
                                    assert(!s2.is_dirty(pp as int));
                                } else if !s1.edge_props(x2, q2) {
                                    assert(x2 == pp as int && q2 == reader as int);
                                } else {
                                    assert(s1.is_dirty(x2) && s1.edge_props(x2, q2));
                                }
                            }
                            assert forall|q2: int| #[trigger] s2.is_bound(q2) && !s2.is_dirty(q2)
                                implies s2.accurate_at(q2) by {
                                assert(s1.is_bound(q2) && !s1.is_dirty(q2));
                                assert(s1.accurate_at(q2));
                                assert(q2 != reader as int);
                                assert forall|y: int| #[trigger] s2.edge_props(y, q2) <==> s2
                                    .is_alive(y) && reads_spec(
                                    s2.the_binding(q2),
                                    s2.vals(),
                                ).contains(y) by {
                                    assert(s2.edge_props(y, q2) == s1.edge_props(y, q2));
                                }
                            }
                        }
                        assert(PropertySystem::sweep_step(s1, s2)) by {
                            lemma_same_listen_edges(s1, s2);
                            assert forall|l: int| s1.valid_listener(l) implies #[trigger] s2
                                .fires_of(l) == sat_add(s1.fires_of(l), cleaned_hits(s1, s2, l)) by {
                                lemma_count_true_zero(hits_pred(s1, s2, l), s1.props@.len());
                            }
                        }
                        lemma_sweep_step_trans(pre, s1, s2);
                    } else {
                        lemma_sweep_step_refl(s1);
                        lemma_sweep_step_trans(pre, s1, s2);
                    }
                    // the result is the final value of the property read
                    assert(val == s2.value_of(pp as int));
                    assert(eval_spec(*b, s2.vals()) == s2.vals()[pp as int]);
                    assert(reads_spec(*b, s2.vals()) =~= Set::empty().insert(pp as int));
                    assert(!s2.is_dirty(pp as int));
                    // edge accumulation for the reader
                    assert forall|y: int| #[trigger] s2.edge_props(y, reader as int) == (pre
                        .edge_props(y, reader as int) || (s2.is_alive(y) && reads_spec(
                        *b,
                        s2.vals(),
                    ).contains(y))) by {
                        assert(s1.edge_props(y, reader as int) == pre.edge_props(y, reader as int));
                        if p_alive {
                            assert(s2.edge_props(y, reader as int) == (s1.edge_props(
                                y,
                                reader as int,
                            ) || (y == pp as int && reader as int == reader as int)));
                        } else {
                            assert(!s2.is_alive(pp as int));
                        }
                    }
                    // edges of other dirty properties are untouched
                    assert forall|y: int, q: int| q != reader as int && s2.is_dirty(q)
                        implies #[trigger] s2.edge_props(y, q) == pre.edge_props(y, q) by {
                        assert(s1.is_dirty(q));
                        assert(s1.edge_props(y, q) == pre.edge_props(y, q));
                        if p_alive {
                            assert(s2.edge_props(y, q) == (s1.edge_props(y, q) || (y == pp as int
                                && q == reader as int)));
                        }
                    }
                }
                val
            },
            Binding::Add(e1, e2) => {
                proof {
                    assert forall|y: int| #[trigger] gets_spec(**e1).contains(y) implies rank(y)
                        < rank(reader as int) && 0 <= y < pre.n() by {
                        assert(gets_spec(*b).contains(y));
                    }
                    assert forall|y: int| #[trigger] gets_spec(**e2).contains(y) implies rank(y)
                        < rank(reader as int) && 0 <= y < pre.n() by {
                        assert(gets_spec(*b).contains(y));
                    }
                }
                let a = self.eval_binding(e1, reader, Ghost(rank));
                let ghost s1 = *self;
                proof {
                    lemma_rank_ok_transfer(pre, s1, rank);
                }
                let c = self.eval_binding(e2, reader, Ghost(rank));
                let ghost s2 = *self;
                proof {
                    lemma_sweep_step_trans(pre, s1, s2);
                    assert forall|p: int| #[trigger] reads_spec(**e1, s1.vals()).contains(p)
                        implies s2.value_of(p) == s1.value_of(p) by {
                        crate::binding::lemma_reads_subset_of_gets(**e1, s1.vals());
                        assert(gets_spec(**e1).contains(p));
                        assert(!s1.is_dirty(p));
                    }
                    lemma_eval_transfer(**e1, s1, s2);
                    assert(eval_spec(*b, s2.vals()) == crate::arith::wadd(
                        eval_spec(**e1, s2.vals()),
                        eval_spec(**e2, s2.vals()),
                    ));
                    assert(reads_spec(*b, s2.vals()) == reads_spec(**e1, s2.vals()).union(
                        reads_spec(**e2, s2.vals()),
                    ));
                    assert forall|y: int| #[trigger] reads_spec(*b, s2.vals()).contains(y)
                        implies !s2.is_dirty(y) by {
                        if reads_spec(**e1, s2.vals()).contains(y) {
                            assert(!s1.is_dirty(y));
                        }
                    }
                    assert forall|y: int| #[trigger] s2.edge_props(y, reader as int) == (pre
                        .edge_props(y, reader as int) || (s2.is_alive(y) && reads_spec(
                        *b,
                        s2.vals(),
                    ).contains(y))) by {
                        assert(s2.edge_props(y, reader as int) == (s1.edge_props(y, reader as int)
                            || (s2.is_alive(y) && reads_spec(**e2, s2.vals()).contains(y))));
                        assert(s1.edge_props(y, reader as int) == (pre.edge_props(y, reader as int)
                            || (s1.is_alive(y) && reads_spec(**e1, s1.vals()).contains(y))));
                        assert(s1.is_alive(y) == s2.is_alive(y));
                    }
                    assert forall|y: int, q: int| q != reader as int && s2.is_dirty(q)
                        implies #[trigger] s2.edge_props(y, q) == pre.edge_props(y, q) by {
                        assert(s1.is_dirty(q));
                        assert(s2.edge_props(y, q) == s1.edge_props(y, q));
                        assert(s1.edge_props(y, q) == pre.edge_props(y, q));
                    }
                }
                crate::arith::add_wrapping(a, c)
            },
            Binding::Sub(e1, e2) => {
                proof {
                    assert forall|y: int| #[trigger] gets_spec(**e1).contains(y) implies rank(y)
                        < rank(reader as int) && 0 <= y < pre.n() by {
                        assert(gets_spec(*b).contains(y));
                    }
                    assert forall|y: int| #[trigger] gets_spec(**e2).contains(y) implies rank(y)
                        < rank(reader as int) && 0 <= y < pre.n() by {
                        assert(gets_spec(*b).contains(y));
                    }
                }
                let a = self.eval_binding(e1, reader, Ghost(rank));
                let ghost s1 = *self;
                proof {
                    lemma_rank_ok_transfer(pre, s1, rank);
                }
                let c = self.eval_binding(e2, reader, Ghost(rank));
                let ghost s2 = *self;
                proof {
                    lemma_sweep_step_trans(pre, s1, s2);
                    assert forall|p: int| #[trigger] reads_spec(**e1, s1.vals()).contains(p)
                        implies s2.value_of(p) == s1.value_of(p) by {
                        crate::binding::lemma_reads_subset_of_gets(**e1, s1.vals());
                        assert(gets_spec(**e1).contains(p));
                        assert(!s1.is_dirty(p));
                    }
                    lemma_eval_transfer(**e1, s1, s2);
                    assert(eval_spec(*b, s2.vals()) == crate::arith::wsub(
                        eval_spec(**e1, s2.vals()),
                        eval_spec(**e2, s2.vals()),
                    ));
                    assert(reads_spec(*b, s2.vals()) == reads_spec(**e1, s2.vals()).union(
                        reads_spec(**e2, s2.vals()),
                    ));
                    assert forall|y: int| #[trigger] reads_spec(*b, s2.vals()).contains(y)
                        implies !s2.is_dirty(y) by {
                        if reads_spec(**e1, s2.vals()).contains(y) {
                            assert(!s1.is_dirty(y));
                        }
                    }
                    assert forall|y: int| #[trigger] s2.edge_props(y, reader as int) == (pre
                        .edge_props(y, reader as int) || (s2.is_alive(y) && reads_spec(
                        *b,
                        s2.vals(),
                    ).contains(y))) by {
                        assert(s2.edge_props(y, reader as int) == (s1.edge_props(y, reader as int)
                            || (s2.is_alive(y) && reads_spec(**e2, s2.vals()).contains(y))));
                        assert(s1.edge_props(y, reader as int) == (pre.edge_props(y, reader as int)
                            || (s1.is_alive(y) && reads_spec(**e1, s1.vals()).contains(y))));
                        assert(s1.is_alive(y) == s2.is_alive(y));
                    }
                    assert forall|y: int, q: int| q != reader as int && s2.is_dirty(q)
                        implies #[trigger] s2.edge_props(y, q) == pre.edge_props(y, q) by {
                        assert(s1.is_dirty(q));
                        assert(s2.edge_props(y, q) == s1.edge_props(y, q));
                        assert(s1.edge_props(y, q) == pre.edge_props(y, q));
                    }
                }
                crate::arith::sub_wrapping(a, c)
            },
            Binding::Mul(e1, e2) => {
                proof {
                    assert forall|y: int| #[trigger] gets_spec(**e1).contains(y) implies rank(y)
                        < rank(reader as int) && 0 <= y < pre.n() by {
                        assert(gets_spec(*b).contains(y));
                    }
                    assert forall|y: int| #[trigger] gets_spec(**e2).contains(y) implies rank(y)
                        < rank(reader as int) && 0 <= y < pre.n() by {
                        assert(gets_spec(*b).contains(y));
                    }
                }
                let a = self.eval_binding(e1, reader, Ghost(rank));
                let ghost s1 = *self;
                proof {
                    lemma_rank_ok_transfer(pre, s1, rank);
                }
                let c = self.eval_binding(e2, reader, Ghost(rank));
                let ghost s2 = *self;
                proof {
                    lemma_sweep_step_trans(pre, s1, s2);
                    assert forall|p: int| #[trigger] reads_spec(**e1, s1.vals()).contains(p)
                        implies s2.value_of(p) == s1.value_of(p) by {
                        crate::binding::lemma_reads_subset_of_gets(**e1, s1.vals());
                        assert(gets_spec(**e1).contains(p));
                        assert(!s1.is_dirty(p));
                    }
                    lemma_eval_transfer(**e1, s1, s2);
                    assert(eval_spec(*b, s2.vals()) == crate::arith::wmul(
                        eval_spec(**e1, s2.vals()),
                        eval_spec(**e2, s2.vals()),
                    ));
                    assert(reads_spec(*b, s2.vals()) == reads_spec(**e1, s2.vals()).union(
                        reads_spec(**e2, s2.vals()),
                    ));
                    assert forall|y: int| #[trigger] reads_spec(*b, s2.vals()).contains(y)
                        implies !s2.is_dirty(y) by {
                        if reads_spec(**e1, s2.vals()).contains(y) {
                            assert(!s1.is_dirty(y));
                        }
                    }
                    assert forall|y: int| #[trigger] s2.edge_props(y, reader as int) == (pre
                        .edge_props(y, reader as int) || (s2.is_alive(y) && reads_spec(
                        *b,
                        s2.vals(),
                    ).contains(y))) by {
                        assert(s2.edge_props(y, reader as int) == (s1.edge_props(y, reader as int)
                            || (s2.is_alive(y) && reads_spec(**e2, s2.vals()).contains(y))));
                        assert(s1.edge_props(y, reader as int) == (pre.edge_props(y, reader as int)
                            || (s1.is_alive(y) && reads_spec(**e1, s1.vals()).contains(y))));
                        assert(s1.is_alive(y) == s2.is_alive(y));
                    }
                    assert forall|y: int, q: int| q != reader as int && s2.is_dirty(q)
                        implies #[trigger] s2.edge_props(y, q) == pre.edge_props(y, q) by {
                        assert(s1.is_dirty(q));
                        assert(s2.edge_props(y, q) == s1.edge_props(y, q));
                        assert(s1.edge_props(y, q) == pre.edge_props(y, q));
                    }
                }
                crate::arith::mul_wrapping(a, c)
            },
            Binding::Cond(ce, te, ee) => {
                proof {
                    assert forall|y: int| #[trigger] gets_spec(**ce).contains(y) implies rank(y)
                        < rank(reader as int) && 0 <= y < pre.n() by {
                        assert(gets_spec(*b).contains(y));
                    }
                    assert forall|y: int| #[trigger] gets_spec(**te).contains(y) implies rank(y)
                        < rank(reader as int) && 0 <= y < pre.n() by {
                        assert(gets_spec(*b).contains(y));
                    }
                    assert forall|y: int| #[trigger] gets_spec(**ee).contains(y) implies rank(y)
                        < rank(reader as int) && 0 <= y < pre.n() by {
                        assert(gets_spec(*b).contains(y));
                    }
                }
                let cv = self.eval_binding(ce, reader, Ghost(rank));
                let ghost s1 = *self;
                proof {
                    lemma_rank_ok_transfer(pre, s1, rank);
                }
                if cv != 0 {
                    let tv = self.eval_binding(te, reader, Ghost(rank));
                    let ghost s2 = *self;
                    proof {
                        lemma_sweep_step_trans(pre, s1, s2);
                        assert forall|p: int| #[trigger] reads_spec(**ce, s1.vals()).contains(p)
                            implies s2.value_of(p) == s1.value_of(p) by {
                            crate::binding::lemma_reads_subset_of_gets(**ce, s1.vals());
                            assert(gets_spec(**ce).contains(p));
                            assert(!s1.is_dirty(p));
                        }
                        lemma_eval_transfer(**ce, s1, s2);
                        assert(eval_spec(**ce, s2.vals()) == cv);
                        assert(eval_spec(*b, s2.vals()) == eval_spec(**te, s2.vals()));
                        assert(reads_spec(*b, s2.vals()) == reads_spec(**ce, s2.vals()).union(
                            reads_spec(**te, s2.vals()),
                        ));
                        assert forall|y: int| #[trigger] reads_spec(*b, s2.vals()).contains(y)
                            implies !s2.is_dirty(y) by {
                            if reads_spec(**ce, s2.vals()).contains(y) {
                                assert(!s1.is_dirty(y));
                            }
                        }
                        assert forall|y: int| #[trigger] s2.edge_props(y, reader as int) == (pre
                            .edge_props(y, reader as int) || (s2.is_alive(y) && reads_spec(
                            *b,
                            s2.vals(),
                        ).contains(y))) by {
                            assert(s2.edge_props(y, reader as int) == (s1.edge_props(
                                y,
                                reader as int,
                            ) || (s2.is_alive(y) && reads_spec(**te, s2.vals()).contains(y))));
                            assert(s1.edge_props(y, reader as int) == (pre.edge_props(
                                y,
                                reader as int,
                            ) || (s1.is_alive(y) && reads_spec(**ce, s1.vals()).contains(y))));
                            assert(s1.is_alive(y) == s2.is_alive(y));
                        }
                        assert forall|y: int, q: int| q != reader as int && s2.is_dirty(q)
                            implies #[trigger] s2.edge_props(y, q) == pre.edge_props(y, q) by {
                            assert(s1.is_dirty(q));
                            assert(s2.edge_props(y, q) == s1.edge_props(y, q));
                            assert(s1.edge_props(y, q) == pre.edge_props(y, q));
                        }
                    }
                    tv
                } else {
                    let ev = self.eval_binding(ee, reader, Ghost(rank));
                    let ghost s2 = *self;
                    proof {
                        lemma_sweep_step_trans(pre, s1, s2);
                        assert forall|p: int| #[trigger] reads_spec(**ce, s1.vals()).contains(p)
                            implies s2.value_of(p) == s1.value_of(p) by {
                            crate::binding::lemma_reads_subset_of_gets(**ce, s1.vals());
                            assert(gets_spec(**ce).contains(p));
                            assert(!s1.is_dirty(p));
                        }
                        lemma_eval_transfer(**ce, s1, s2);
                        assert(eval_spec(**ce, s2.vals()) == cv);
                        assert(eval_spec(*b, s2.vals()) == eval_spec(**ee, s2.vals()));
                        assert(reads_spec(*b, s2.vals()) == reads_spec(**ce, s2.vals()).union(
                            reads_spec(**ee, s2.vals()),
                        ));
                        assert forall|y: int| #[trigger] reads_spec(*b, s2.vals()).contains(y)
                            implies !s2.is_dirty(y) by {
                            if reads_spec(**ce, s2.vals()).contains(y) {
                                assert(!s1.is_dirty(y));
                            }
                        }
                        assert forall|y: int| #[trigger] s2.edge_props(y, reader as int) == (pre
                            .edge_props(y, reader as int) || (s2.is_alive(y) && reads_spec(
                            *b,
                            s2.vals(),
                        ).contains(y))) by {
                            assert(s2.edge_props(y, reader as int) == (s1.edge_props(
                                y,
                                reader as int,
                            ) || (s2.is_alive(y) && reads_spec(**ee, s2.vals()).contains(y))));
                            assert(s1.edge_props(y, reader as int) == (pre.edge_props(
                                y,
                                reader as int,
                            ) || (s1.is_alive(y) && reads_spec(**ce, s1.vals()).contains(y))));
                            assert(s1.is_alive(y) == s2.is_alive(y));
                        }
                        assert forall|y: int, q: int| q != reader as int && s2.is_dirty(q)
                            implies #[trigger] s2.edge_props(y, q) == pre.edge_props(y, q) by {
                            assert(s1.is_dirty(q));
                            assert(s2.edge_props(y, q) == s1.edge_props(y, q));
                            assert(s1.edge_props(y, q) == pre.edge_props(y, q));
                        }
                    }
                    ev
                }
            },
        }
    }

    /// Recompute property `x` if it awaits recomputation: clear its
    /// reverse-dependency list, re-run its binding (pulling, on demand,
    /// everything the binding reads), store the result, rebuild the edge set
    /// from this run's reads, and notify `x`'s listeners. The pull step of an
    /// update sweep.
    fn ensure_updated(&mut self, x: usize, Ghost(rank): Ghost<spec_fn(int) -> nat>)
        requires
            old(self).inv_mid(),
            old(self).rank_ok(rank),
            x < old(self).props.len(),
        ensures
            PropertySystem::sweep_step(*old(self), *final(self)),
            !final(self).is_dirty(x as int),
            forall|q: int| rank(q) > rank(x as int) ==> #[trigger] final(self).is_dirty(q) == old(self).is_dirty(q),
            forall|y: int, q: int| final(self).is_dirty(q) ==> #[trigger] final(self).edge_props(
                y,
                q,
            ) == old(self).edge_props(y, q),
        decreases rank(x as int), 1int, 0nat,
    {
        let ghost pre = *self;
        if !self.props[x].dirty {
            proof {
                lemma_sweep_step_refl(*self);
            }
            return ;
        }
        proof {
            assert(pre.is_dirty(x as int));
            assert(pre.is_bound(x as int));
        }
        let old_evals = if let Some(bs) = &self.props[x].binding {
            bs.evals
        } else {
            vstd::pervasive::unreached()
        };
        let b = if let Some(bs) = &self.props[x].binding {
            bs.binding.duplicate()
        } else {
            vstd::pervasive::unreached()
        };
        proof {
            assert(b == pre.the_binding(x as int));
            assert(valid_binding(b, pre.n()));
            assert forall|y: int| gets_spec(b).contains(y) implies rank(y) < rank(x as int) by {
                assert(pre.is_bound(x as int));
            }
            assert(!gets_spec(b).contains(x as int));
            crate::binding::lemma_reads_subset_of_gets(b, pre.vals());
        }
        self.kill_reader_edges(x);
        let ghost s1 = *self;
        proof {
            lemma_props_transfer(pre, s1);
            assert(s1.inv_mid()) by {
                assert forall|k: int| 0 <= k < s1.dep_edges@.len() && (#[trigger] s1.dep_edges@[k]).alive implies s1.is_alive(s1.dep_edges@[k].source as int) && s1.is_bound(
                    s1.dep_edges@[k].reader as int,
                ) by {
                    assert(pre.dep_edges@[k].alive && pre.dep_edges@[k] == s1.dep_edges@[k]);
                }
                assert forall|k1: int, k2: int| #![trigger s1.dep_edges@[k1], s1.dep_edges@[k2]]
                    0 <= k1 < s1.dep_edges@.len() && 0 <= k2 < s1.dep_edges@.len()
                    && s1.dep_edges@[k1].alive && s1.dep_edges@[k2].alive && s1.dep_edges@[
                    k1
                ].source == s1.dep_edges@[k2].source && s1.dep_edges@[k1].reader == s1.dep_edges@[
                    k2
                ].reader implies k1 == k2 by {
                    assert(pre.dep_edges@[k1] == s1.dep_edges@[k1]);
                    assert(pre.dep_edges@[k2] == s1.dep_edges@[k2]);
                }
                assert forall|x2: int, q2: int| #[trigger] s1.edge_props(x2, q2) && s1.is_dirty(x2)
                    implies s1.is_dirty(q2) by {
                    assert(pre.edge_props(x2, q2));
                }
                assert forall|q2: int| #[trigger] s1.is_bound(q2) && !s1.is_dirty(q2) implies s1
                    .accurate_at(q2) by {
                    assert(pre.is_bound(q2) && !pre.is_dirty(q2));
                    assert(pre.accurate_at(q2));
                    assert(q2 != x as int);
                    assert forall|y: int| #[trigger] s1.edge_props(y, q2) <==> s1.is_alive(y)
                        && reads_spec(s1.the_binding(q2), s1.vals()).contains(y) by {
                        assert(s1.edge_props(y, q2) == pre.edge_props(y, q2));
                        assert(pre.edge_props(y, q2) <==> pre.is_alive(y) && reads_spec(
                            pre.the_binding(q2),
                            pre.vals(),
                        ).contains(y));
                    }
                }
            }
            assert(PropertySystem::sweep_step(pre, s1)) by {
                assert forall|l: int| pre.valid_listener(l) implies #[trigger] s1.fires_of(l)
                    == sat_add(pre.fires_of(l), cleaned_hits(pre, s1, l)) by {
                    lemma_count_true_zero(hits_pred(pre, s1, l), pre.props@.len());
                }
                lemma_same_listen_edges(pre, s1);
            }
            assert(s1.rank_ok(rank));
            assert(s1.is_dirty(x as int));
        }
        let v = self.eval_binding(&b, x, Ghost(rank));
        let ghost s2 = *self;
        self.props[x].value = v;
        self.props[x].binding = Some(
            BindingStorage { binding: b, evals: inc_saturating(old_evals) },
        );
        self.props[x].dirty = false;
        let ghost s4 = *self;
        proof {
            // only slot `x` changed, and in the intended way
            assert(s4.props@.len() == s2.props@.len());
            assert forall|p: int| 0 <= p < s2.props@.len() && p != x as int implies s4.props@[p]
                == s2.props@[p] by {}
            assert(s4.props@[x as int].value == v);
            assert(!s4.props@[x as int].dirty);
            assert(s4.props@[x as int].alive == s2.props@[x as int].alive);
            assert(s4.props@[x as int].binding == Some(
                BindingStorage { binding: b, evals: sat_inc(old_evals) },
            ));
            // the stored value is the binding evaluated over the final values
            assert forall|p: int| #[trigger] reads_spec(b, s2.vals()).contains(p) implies s4
                .value_of(p) == s2.value_of(p) by {
                assert(gets_spec(b).contains(p)) by {
                    crate::binding::lemma_reads_subset_of_gets(b, s2.vals());
                }
                assert(p != x as int);
                assert(0 <= p < pre.n());
                assert(s2.props@.len() == pre.props@.len());
                assert(s4.props@[p] == s2.props@[p]);
            }
            lemma_eval_transfer(b, s2, s4);
            assert(s4.value_of(x as int) == eval_spec(s4.the_binding(x as int), s4.vals()));
            // accuracy carries over to every other clean bound property
            assert forall|q2: int| #[trigger] s4.is_bound(q2) && !s4.is_dirty(q2) && q2 != x as int
                implies s4.accurate_at(q2) by {
                assert(s2.is_bound(q2) && !s2.is_dirty(q2));
                assert(s2.accurate_at(q2));
                assert forall|p: int| #[trigger] reads_spec(
                    s2.the_binding(q2),
                    s2.vals(),
                ).contains(p) implies s4.value_of(p) == s2.value_of(p) by {
                    if p == x as int {
                        assert(s2.is_dirty(x as int));
                        assert(s2.is_bound(x as int));
                        assert(s2.is_alive(x as int));
                        assert(s2.edge_props(x as int, q2));
                        assert(s2.is_dirty(q2));
                    } else {
                        assert(valid_binding(s2.the_binding(q2), s2.n()));
                        assert(gets_spec(s2.the_binding(q2)).contains(p)) by {
                            crate::binding::lemma_reads_subset_of_gets(
                                s2.the_binding(q2),
                                s2.vals(),
                            );
                        }
                        assert(0 <= p < s2.props@.len());
                        assert(s4.props@[p] == s2.props@[p]);
                    }
                }
                assert(valid_binding(s2.the_binding(q2), s2.n()));
                lemma_eval_transfer(s2.the_binding(q2), s2, s4);
                lemma_same_dep_edges(s2, s4);
                assert forall|y: int| #[trigger] s4.edge_props(y, q2) <==> s4.is_alive(y)
                    && reads_spec(s4.the_binding(q2), s4.vals()).contains(y) by {
                    assert(s4.edge_props(y, q2) == s2.edge_props(y, q2));
                    assert(s4.is_alive(y) == s2.is_alive(y));
                }
            }
            // accuracy of x itself: its edges are this run's reads
            lemma_same_dep_edges(s2, s4);
            assert forall|y: int| #[trigger] s4.edge_props(y, x as int) <==> s4.is_alive(y)
                && reads_spec(s4.the_binding(x as int), s4.vals()).contains(y) by {
                assert(s4.edge_props(y, x as int) == s2.edge_props(y, x as int));
                assert(s2.edge_props(y, x as int) == (s1.edge_props(y, x as int) || (s2.is_alive(y)
                    && reads_spec(b, s2.vals()).contains(y))));
                assert(!s1.edge_props(y, x as int));
                assert(s4.is_alive(y) == s2.is_alive(y));
                assert(reads_spec(b, s4.vals()) == reads_spec(b, s2.vals()));
            }
            assert(s4.accurate_at(x as int));
            assert(s4.inv_mid()) by {
                assert forall|p: int| #[trigger] s4.is_bound(p) implies valid_binding(
                    s4.the_binding(p),
                    s4.n(),
                ) by {
                    if p != x as int {
                        assert(s4.props@[p] == s2.props@[p]);
                        assert(s2.is_bound(p));
                    } else {
                        assert(s4.the_binding(p) == b);
                    }
                }
                assert forall|p: int| #[trigger] s4.is_dirty(p) implies s4.is_bound(p) by {
                    assert(p != x as int);
                    assert(s4.props@[p] == s2.props@[p]);
                    assert(s2.is_dirty(p));
                    assert(s2.is_bound(p));
                }
                assert forall|k: int| 0 <= k < s4.dep_edges@.len() && (#[trigger] s4.dep_edges@[k]).alive implies s4.is_alive(s4.dep_edges@[k].source as int) && s4.is_bound(
                    s4.dep_edges@[k].reader as int,
                ) by {
                    assert(s2.dep_edges@[k] == s4.dep_edges@[k]);
                    assert(s2.is_alive(s2.dep_edges@[k].source as int));
                    assert(s2.is_bound(s2.dep_edges@[k].reader as int));
                }
                assert forall|k1: int, k2: int| #![trigger s4.dep_edges@[k1], s4.dep_edges@[k2]]
                    0 <= k1 < s4.dep_edges@.len() && 0 <= k2 < s4.dep_edges@.len()
                    && s4.dep_edges@[k1].alive && s4.dep_edges@[k2].alive && s4.dep_edges@[
                    k1
                ].source == s4.dep_edges@[k2].source && s4.dep_edges@[k1].reader == s4.dep_edges@[
                    k2
                ].reader implies k1 == k2 by {
                    assert(s2.dep_edges@[k1] == s4.dep_edges@[k1]);
                    assert(s2.dep_edges@[k2] == s4.dep_edges@[k2]);
                }
                assert forall|x2: int, q2: int| #[trigger] s4.edge_props(x2, q2) && s4.is_dirty(x2)
                    implies s4.is_dirty(q2) by {
                    assert(s4.edge_props(x2, q2) == s2.edge_props(x2, q2));
                    if x2 == x as int {
                        assert(!s4.is_dirty(x as int));
                    } else {
                        assert(s2.is_dirty(x2));
                        assert(s2.is_dirty(q2));
                        assert(q2 != x as int);
                    }
                }
                assert forall|q2: int| #[trigger] s4.is_bound(q2) && !s4.is_dirty(q2) implies s4
                    .accurate_at(q2) by {
                    if q2 != x as int {
                        assert(s4.accurate_at(q2));
                    }
                }
            }
        }
        self.fire_listeners_of(x);
        proof {
            let s5 = *self;
            lemma_props_transfer(s4, s5);
            lemma_same_dep_edges(s4, s5);
            lemma_same_listen_edges(s4, s5);
            assert(s5.inv_mid()) by {
                assert forall|k: int| 0 <= k < s5.dep_edges@.len() && (#[trigger] s5.dep_edges@[k]).alive implies s5.is_alive(s5.dep_edges@[k].source as int) && s5.is_bound(
                    s5.dep_edges@[k].reader as int,
                ) by {
                    assert(s4.dep_edges@[k] == s5.dep_edges@[k]);
                    assert(s4.is_alive(s4.dep_edges@[k].source as int));
                    assert(s4.is_bound(s4.dep_edges@[k].reader as int));
                }
                assert forall|k1: int, k2: int| #![trigger s5.dep_edges@[k1], s5.dep_edges@[k2]]
                    0 <= k1 < s5.dep_edges@.len() && 0 <= k2 < s5.dep_edges@.len()
                    && s5.dep_edges@[k1].alive && s5.dep_edges@[k2].alive && s5.dep_edges@[
                    k1
                ].source == s5.dep_edges@[k2].source && s5.dep_edges@[k1].reader == s5.dep_edges@[
                    k2
                ].reader implies k1 == k2 by {
                    assert(s4.dep_edges@[k1] == s5.dep_edges@[k1]);
                    assert(s4.dep_edges@[k2] == s5.dep_edges@[k2]);
                }
                assert forall|x2: int, q2: int| #[trigger] s5.edge_props(x2, q2) && s5.is_dirty(x2)
                    implies s5.is_dirty(q2) by {
                    assert(s5.edge_props(x2, q2) == s4.edge_props(x2, q2));
                }
                assert forall|q2: int| #[trigger] s5.is_bound(q2) && !s5.is_dirty(q2) implies s5
                    .accurate_at(q2) by {
                    assert(s4.accurate_at(q2));
                    assert forall|y: int| #[trigger] s5.edge_props(y, q2) <==> s5.is_alive(y)
                        && reads_spec(s5.the_binding(q2), s5.vals()).contains(y) by {
                        assert(s5.edge_props(y, q2) == s4.edge_props(y, q2));
                    }
                }
            }
            // the step from s2 to s5 is one sweep step: x went clean
            assert(PropertySystem::sweep_step(s2, s5)) by {
                lemma_same_listen_edges(s2, s5);
                assert forall|q2: int| s2.valid_prop(q2) implies #[trigger] s5.evals_of(q2) == if s2
                    .is_dirty(q2) && !s5.is_dirty(q2) {
                    sat_inc(s2.evals_of(q2))
                } else {
                    s2.evals_of(q2)
                } by {
                    if q2 != x as int {
                        assert(s5.props@[q2] == s2.props@[q2]);
                    } else {
                        assert(s2.evals_of(q2) == old_evals);
                    }
                }
                assert forall|l: int| s2.valid_listener(l) implies #[trigger] s5.fires_of(l)
                    == sat_add(s2.fires_of(l), cleaned_hits(s2, s5, l)) by {
                    lemma_same_listen_edges(s2, s4);
                    assert forall|q2: int| 0 <= q2 < s2.props@.len() implies #[trigger] hits_pred(
                        s2,
                        s5,
                        l,
                    )(q2) == (q2 == x as int && s2.edge_listener(x as int, l)) by {
                        if q2 != x as int {
                            assert(s5.is_dirty(q2) == s2.is_dirty(q2));
                        }
                    }
                    lemma_count_true_single(
                        hits_pred(s2, s5, l),
                        s2.props@.len(),
                        x as int,
                        s2.edge_listener(x as int, l),
                    );
                    if s2.edge_listener(x as int, l) {
                        assert(s5.fires_of(l) == sat_inc(s4.fires_of(l)));
                        assert(s4.fires_of(l) == s2.fires_of(l));
                        assert(cleaned_hits(s2, s5, l) == 1);
                        assert(sat_add(s2.fires_of(l), 1) == sat_inc(sat_add(s2.fires_of(l), 0)));
                    } else {
                        assert(s5.fires_of(l) == s4.fires_of(l));
                        assert(cleaned_hits(s2, s5, l) == 0);
                    }
                }
            }
            lemma_sweep_step_trans(pre, s1, s2);
            lemma_sweep_step_trans(pre, s2, s5);
            // edges of properties still awaiting recomputation are untouched
            assert forall|y: int, q: int| s5.is_dirty(q) implies #[trigger] s5.edge_props(y, q)
                == pre.edge_props(y, q) by {
                assert(q != x as int);
                assert(s5.edge_props(y, q) == s4.edge_props(y, q));
                assert(s4.edge_props(y, q) == s2.edge_props(y, q));
                assert(s2.is_dirty(q));
                assert(s2.edge_props(y, q) == s1.edge_props(y, q));
                assert(s1.edge_props(y, q) == pre.edge_props(y, q));
            }
            // recomputation reaches only properties ranked at or below `x`
            assert forall|q: int| rank(q) > rank(x as int) implies #[trigger] s5.is_dirty(q) == pre
                .is_dirty(q) by {
                assert(s1.is_dirty(q) == pre.is_dirty(q));
                assert(s2.is_dirty(q) == s1.is_dirty(q));
                assert(q != x as int);
                assert(s4.is_dirty(q) == s2.is_dirty(q));
                assert(s5.is_dirty(q) == s4.is_dirty(q));
            }
        }
    }

    /// Recompute every property that awaits recomputation, in dependency
    /// order: the second half of an update sweep.
    fn sweep_all(&mut self, Ghost(rank): Ghost<spec_fn(int) -> nat>)
        requires
            old(self).inv_mid(),
            old(self).rank_ok(rank),
        ensures
            PropertySystem::sweep_step(*old(self), *final(self)),
            final(self).all_clean(),
    {
        let ghost s0 = *self;
        let n = self.props.len();
        let mut i: usize = 0;
        proof {
            lemma_sweep_step_refl(s0);
        }
        while i < n
            invariant
                s0.inv_mid(),
                s0.rank_ok(rank),
                n == self.props.len(),
                i <= n,
                PropertySystem::sweep_step(s0, *self),
                self.rank_ok(rank),
                forall|q: int| 0 <= q < i ==> !self.is_dirty(q),
            decreases n - i,
        {
            let ghost before = *self;
            self.ensure_updated(i, Ghost(rank));
            proof {
                lemma_sweep_step_trans(s0, before, *self);
                lemma_rank_ok_transfer(before, *self, rank);
            }
            i += 1;
        }
        proof {
            assert forall|q: int| !(#[trigger] self.is_dirty(q)) by {
                if 0 <= q < n {
                    assert(!self.is_dirty(q));
                }
            }
        }
    }

    /// Assign the literal `v` to property `p`: clear any binding, store the
    /// value, and synchronously re-evaluate every dependent, notifying
    /// listeners along the way. When the call returns the graph is quiescent.
    pub(crate) fn set_value(&mut self, p: usize, v: u64)
        requires
            old(self).wf(),
            old(self).is_alive(p as int),
        ensures
            PropertySystem::set_rel(*old(self), *final(self), p as int, v),
    {
        let ghost pre = *self;
        let ghost rank0 = choose|r: spec_fn(int) -> nat| pre.rank_ok(r);
        proof {
            lemma_no_self_reach(pre, rank0, p as int);
        }
        self.mark_dependents_dirty(p);
        let ghost m = *self;
        proof {
            assert(!m.is_dirty(p as int));
            assert forall|q: int| #[trigger] m.is_dirty(q) == reaches_plus(pre, p as int, q) by {
                assert(!pre.is_dirty(q));
            }
            lemma_same_dep_edges(pre, m);
            lemma_same_listen_edges(pre, m);
        }
        self.kill_reader_edges(p);
        let ghost k = *self;
        self.props[p].binding = None;
        self.props[p].value = v;
        let ghost w = *self;
        proof {
            // slotwise description of the writes
            assert(w.props@.len() == pre.props@.len());
            assert forall|q: int| 0 <= q < pre.props@.len() && q != p as int implies w.props@[q]
                == m.props@[q] by {
                assert(w.props@[q] == k.props@[q]);
            }
            assert(w.value_of(p as int) == v);
            assert(w.binding_of(p as int) is None);
            assert(!w.is_dirty(p as int));
            assert(w.props@[p as int].alive == pre.props@[p as int].alive);
            // every edge of `w` is an edge of `pre`, and none leads into `p`
            lemma_same_dep_edges(k, w);
            lemma_same_listen_edges(k, w);
            assert forall|y: int, q: int| q != p as int implies #[trigger] w.edge_props(y, q)
                == pre.edge_props(y, q) by {
                assert(w.edge_props(y, q) == k.edge_props(y, q));
                assert(k.edge_props(y, q) == m.edge_props(y, q));
            }
            assert forall|y: int| !(#[trigger] w.edge_props(y, p as int)) by {
                assert(!k.edge_props(y, p as int));
            }
            lemma_same_listen_edges(m, k);
            // the invariant holds before the sweep
            assert(w.inv_mid()) by {
                assert forall|k: int| 0 <= k < w.dep_edges@.len() && (#[trigger] w.dep_edges@[k]).alive implies w.is_alive(w.dep_edges@[k].source as int) && w.is_bound(
                    w.dep_edges@[k].reader as int,
                ) by {
                    assert(w.dep_edge_is(k, w.dep_edges@[k].source as int, w.dep_edges@[k].reader as int));
                    assert(w.edge_props(w.dep_edges@[k].source as int, w.dep_edges@[k].reader as int));
                    assert(w.dep_edges@[k].reader != p);
                    assert(m.dep_edges@[k] == w.dep_edges@[k]);
                    assert(m.is_alive(m.dep_edges@[k].source as int));
                    assert(m.is_bound(m.dep_edges@[k].reader as int));
                }
                assert forall|k1: int, k2: int| #![trigger w.dep_edges@[k1], w.dep_edges@[k2]]
                    0 <= k1 < w.dep_edges@.len() && 0 <= k2 < w.dep_edges@.len()
                    && w.dep_edges@[k1].alive && w.dep_edges@[k2].alive && w.dep_edges@[k1].source
                    == w.dep_edges@[k2].source && w.dep_edges@[k1].reader == w.dep_edges@[
                    k2
                ].reader implies k1 == k2 by {
                    assert(m.dep_edges@[k1] == w.dep_edges@[k1]);
                    assert(m.dep_edges@[k2] == w.dep_edges@[k2]);
                }
                assert forall|k: int| 0 <= k < w.listen_edges@.len() && (#[trigger] w.listen_edges@[k]).alive implies w.is_alive(w.listen_edges@[k].source as int) && w.valid_listener(
                    w.listen_edges@[k].listener as int,
                ) by {
                    assert(m.is_alive(m.listen_edges@[k].source as int));
                    assert(w.listen_edges@[k].source != p || w.is_alive(p as int));
                }
                assert forall|q: int| #[trigger] w.is_bound(q) implies valid_binding(
                    w.the_binding(q),
                    w.n(),
                ) by {
                    assert(q != p as int);
                    assert(w.props@[q] == m.props@[q]);
                    assert(m.props@[q].binding == pre.props@[q].binding);
                    assert(m.props@[q].alive == pre.props@[q].alive);
                    assert(pre.is_bound(q));
                    assert(pre.the_binding(q) == w.the_binding(q));
                }
                assert forall|q: int| #[trigger] w.is_dirty(q) implies w.is_bound(q) by {
                    assert(0 <= q < pre.props@.len());
                    assert(w.props@[p as int].dirty == m.props@[p as int].dirty);
                    assert(q != p as int);
                    assert(w.props@[q] == m.props@[q]);
                    assert(m.is_dirty(q));
                    assert(m.is_bound(q));
                    assert(m.props@[q].alive && m.props@[q].binding is Some);
                }
                assert forall|x: int, q: int| #[trigger] w.edge_props(x, q) && w.is_dirty(x)
                    implies w.is_dirty(q) by {
                    assert(q != p as int);
                    assert(m.edge_props(x, q));
                    assert(m.is_dirty(x) == w.is_dirty(x));
                }
                assert forall|q2: int| #[trigger] w.is_bound(q2) && !w.is_dirty(q2) implies w
                    .accurate_at(q2) by {
                    assert(q2 != p as int);
                    assert(pre.is_bound(q2) && !pre.is_dirty(q2));
                    assert(pre.accurate_at(q2));
                    assert(!reaches_plus(pre, p as int, q2)) by {
                        assert(!m.is_dirty(q2));
                    }
                    assert(!reads_spec(pre.the_binding(q2), pre.vals()).contains(p as int)) by {
                        if reads_spec(pre.the_binding(q2), pre.vals()).contains(p as int) {
                            assert(pre.edge_props(p as int, q2));
                            lemma_reach_step(pre, p as int, p as int, q2);
                        }
                    }
                    assert forall|y: int| #[trigger] reads_spec(
                        pre.the_binding(q2),
                        pre.vals(),
                    ).contains(y) implies w.value_of(y) == pre.value_of(y) by {
                        assert(y != p as int);
                        crate::binding::lemma_reads_subset_of_gets(
                            pre.the_binding(q2),
                            pre.vals(),
                        );
                        assert(gets_spec(pre.the_binding(q2)).contains(y));
                        assert(valid_binding(pre.the_binding(q2), pre.n()));
                        assert(w.props@[y] == m.props@[y]);
                        assert(m.props@[y].value == pre.props@[y].value);
                    }
                    assert(valid_binding(pre.the_binding(q2), pre.n()));
                    lemma_eval_transfer(pre.the_binding(q2), pre, w);
                    assert(w.the_binding(q2) == pre.the_binding(q2));
                    assert(w.value_of(q2) == pre.value_of(q2)) by {
                        assert(w.props@[q2] == m.props@[q2]);
                        assert(m.props@[q2].value == pre.props@[q2].value);
                    }
                    assert forall|y: int| #[trigger] w.edge_props(y, q2) <==> w.is_alive(y)
                        && reads_spec(w.the_binding(q2), w.vals()).contains(y) by {
                        assert(w.edge_props(y, q2) == pre.edge_props(y, q2));
                        assert(w.is_alive(y) == pre.is_alive(y));
                    }
                }
            }
            assert(w.rank_ok(rank0)) by {
                assert forall|q: int, x: int| (#[trigger] gets_spec(w.the_binding(q)).contains(x))
                    && w.is_bound(q) implies rank0(x) < rank0(q) by {
                    assert(q != p as int);
                    assert(pre.is_bound(q) && pre.the_binding(q) == w.the_binding(q));
                    assert(gets_spec(pre.the_binding(q)).contains(x));
                }
            }
        }
        self.fire_listeners_of(p);
        let ghost f = *self;
        proof {
            lemma_props_transfer(w, f);
            lemma_same_dep_edges(w, f);
            lemma_same_listen_edges(w, f);
            assert(f.inv_mid()) by {
                assert forall|k: int| 0 <= k < f.dep_edges@.len() && (#[trigger] f.dep_edges@[k]).alive implies f.is_alive(f.dep_edges@[k].source as int) && f.is_bound(
                    f.dep_edges@[k].reader as int,
                ) by {
                    assert(w.dep_edges@[k] == f.dep_edges@[k]);
                    assert(w.is_alive(w.dep_edges@[k].source as int));
                    assert(w.is_bound(w.dep_edges@[k].reader as int));
                }
                assert forall|k1: int, k2: int| #![trigger f.dep_edges@[k1], f.dep_edges@[k2]]
                    0 <= k1 < f.dep_edges@.len() && 0 <= k2 < f.dep_edges@.len()
                    && f.dep_edges@[k1].alive && f.dep_edges@[k2].alive && f.dep_edges@[k1].source
                    == f.dep_edges@[k2].source && f.dep_edges@[k1].reader == f.dep_edges@[
                    k2
                ].reader implies k1 == k2 by {
                    assert(w.dep_edges@[k1] == f.dep_edges@[k1]);
                    assert(w.dep_edges@[k2] == f.dep_edges@[k2]);
                }
                assert forall|k: int| 0 <= k < f.listen_edges@.len() && (#[trigger] f.listen_edges@[k]).alive implies f.is_alive(f.listen_edges@[k].source as int) && f.valid_listener(
                    f.listen_edges@[k].listener as int,
                ) by {
                    assert(w.listen_edges@[k] == f.listen_edges@[k]);
                    assert(w.is_alive(w.listen_edges@[k].source as int));
                    assert(w.valid_listener(w.listen_edges@[k].listener as int));
                }
                assert forall|x: int, q: int| #[trigger] f.edge_props(x, q) && f.is_dirty(x)
                    implies f.is_dirty(q) by {
                    assert(w.edge_props(x, q) && w.is_dirty(x));
                }
                assert forall|q2: int| #[trigger] f.is_bound(q2) && !f.is_dirty(q2) implies f
                    .accurate_at(q2) by {
                    assert(w.is_bound(q2) && !w.is_dirty(q2));
                    assert(w.accurate_at(q2));
                    assert forall|y: int| #[trigger] f.edge_props(y, q2) <==> f.is_alive(y)
                        && reads_spec(f.the_binding(q2), f.vals()).contains(y) by {
                        assert(f.edge_props(y, q2) == w.edge_props(y, q2));
                    }
                }
            }
            assert(f.rank_ok(rank0)) by {
                lemma_rank_ok_transfer(w, f, rank0);
            }
        }
        self.sweep_all(Ghost(rank0));
        proof {
            let fin = *self;
            // well-formed and at rest
            assert(fin.wf()) by {
                assert(fin.rank_ok(rank0)) by {
                    lemma_rank_ok_transfer(f, fin, rank0);
                }
            }
            // the assigned property keeps the literal
            assert(fin.binding_of(p as int) is None);
            assert(fin.value_of(p as int) == v) by {
                assert(!f.is_dirty(p as int));
            }
            assert(fin.evals_of(p as int) == 0);
            // untouched properties keep everything
            assert forall|q: int| pre.valid_prop(q) && q != p as int implies #[trigger] fin
                .binding_of(q) == pre.binding_of(q) by {
                assert(fin.binding_of(q) == f.binding_of(q));
                assert(w.props@[q] == m.props@[q]);
            }
            assert forall|q: int| pre.valid_prop(q) && q != p as int && !reaches_plus(
                pre,
                p as int,
                q,
            ) implies #[trigger] fin.value_of(q) == pre.value_of(q) by {
                assert(!m.is_dirty(q));
                assert(!f.is_dirty(q));
                assert(fin.value_of(q) == f.value_of(q));
                assert(w.props@[q] == m.props@[q]);
            }
            assert forall|q: int| pre.valid_prop(q) && q != p as int implies #[trigger] fin
                .evals_of(q) == if reaches_plus(pre, p as int, q) {
                sat_inc(pre.evals_of(q))
            } else {
                pre.evals_of(q)
            } by {
                assert(f.evals_of(q) == pre.evals_of(q)) by {
                    assert(w.props@[q] == m.props@[q]);
                }
                assert(f.is_dirty(q) == reaches_plus(pre, p as int, q)) by {
                    assert(f.is_dirty(q) == w.is_dirty(q));
                    assert(0 <= q < pre.props@.len());
                    assert(w.props@[q] == m.props@[q]);
                    assert(w.is_dirty(q) == m.is_dirty(q));
                    assert(m.is_dirty(q) == reaches_plus(pre, p as int, q));
                }
                assert(!fin.is_dirty(q));
            }
            // listener counts
            assert forall|l: int| pre.valid_listener(l) implies #[trigger] fin.fires_of(l)
                == sat_add(pre.fires_of(l), set_hits(pre, p as int, l)) by {
                let direct = (|q: int| q == p as int && pre.edge_listener(q, l));
                let swept = hits_pred(f, fin, l);
                let both = set_hits_pred(pre, p as int, l);
                assert forall|q: int| 0 <= q < pre.props@.len() implies #[trigger] both(q) == (
                direct(q) || swept(q)) && !(direct(q) && swept(q)) by {
                    assert(f.edge_listener(q, l) == pre.edge_listener(q, l));
                    assert(f.is_dirty(q) == reaches_plus(pre, p as int, q)) by {
                        assert(f.is_dirty(q) == w.is_dirty(q));
                        if q != p as int {
                            assert(w.props@[q] == m.props@[q]);
                            assert(w.is_dirty(q) == m.is_dirty(q));
                            assert(m.is_dirty(q) == reaches_plus(pre, p as int, q));
                        } else {
                            assert(!w.is_dirty(p as int));
                            assert(!reaches_plus(pre, p as int, p as int));
                        }
                    }
                    assert(!fin.is_dirty(q));
                    assert(!reaches_plus(pre, p as int, p as int));
                }
                lemma_count_true_sum(direct, swept, both, pre.props@.len());
                assert forall|q: int| 0 <= q < pre.props@.len() implies #[trigger] direct(q) == (q
                    == p as int && pre.edge_listener(p as int, l)) by {}
                lemma_count_true_single(
                    direct,
                    pre.props@.len(),
                    p as int,
                    pre.edge_listener(p as int, l),
                );
                assert(w.fires_of(l) == pre.fires_of(l));
                assert(f.fires_of(l) == if pre.edge_listener(p as int, l) {
                    sat_inc(pre.fires_of(l))
                } else {
                    pre.fires_of(l)
                }) by {
                    assert(w.edge_listener(p as int, l) == pre.edge_listener(p as int, l));
                }
                assert(fin.fires_of(l) == sat_add(f.fires_of(l), cleaned_hits(f, fin, l)));
                assert(f.props@.len() == pre.props@.len());
                if pre.edge_listener(p as int, l) {
                    assert(sat_add(pre.fires_of(l), 0) == pre.fires_of(l));
                    assert(sat_add(pre.fires_of(l), 1) == sat_inc(sat_add(pre.fires_of(l), 0)));
                    assert(f.fires_of(l) == sat_add(pre.fires_of(l), 1));
                    crate::arith::lemma_sat_add_assoc(pre.fires_of(l), 1, cleaned_hits(f, fin, l));
                } else {
                    crate::arith::lemma_sat_add_assoc(pre.fires_of(l), 0, cleaned_hits(f, fin, l));
                }
                assert(count_true(both, pre.props@.len()) == set_hits(pre, p as int, l));
            }
            // subscriptions and untouched edges
            assert forall|x: int, l: int| #[trigger] fin.edge_listener(x, l) == pre.edge_listener(
                x,
                l,
            ) by {
                assert(fin.edge_listener(x, l) == f.edge_listener(x, l));
            }
            assert forall|x: int, q: int| pre.valid_prop(q) && q != p as int && !reaches_plus(
                pre,
                p as int,
                q,
            ) implies #[trigger] fin.edge_props(x, q) == pre.edge_props(x, q) by {
                assert(!f.is_dirty(q)) by {
                    assert(f.is_dirty(q) == w.is_dirty(q));
                    assert(w.props@[q] == m.props@[q]);
                    assert(w.is_dirty(q) == m.is_dirty(q));
                    assert(m.is_dirty(q) == reaches_plus(pre, p as int, q));
                }
                assert(fin.edge_props(x, q) == f.edge_props(x, q));
                assert(f.edge_props(x, q) == w.edge_props(x, q));
            }
            assert forall|x: int| !(#[trigger] fin.edge_props(x, p as int)) by {
                if fin.edge_props(x, p as int) {
                    let k = choose|k: int| fin.dep_edge_is(k, x, p as int);
                    assert(fin.is_bound(p as int));
                }
            }
        }
    }

    /// Install binding `b` on property `p` and evaluate it once immediately;
    /// dependents of `p` are re-evaluated synchronously, exactly as after an
    /// assignment. When the call returns the graph is quiescent.
    pub(crate) fn install_binding(&mut self, p: usize, b: Binding)
        requires
            old(self).wf(),
            old(self).is_alive(p as int),
            valid_binding(b, old(self).n()),
            old(self).can_bind(p as int, b),
        ensures
            PropertySystem::set_binding_rel(*old(self), *final(self), p as int, b),
    {
        let ghost pre = *self;
        let ghost rank0 = choose|r: spec_fn(int) -> nat| pre.rank_ok(r);
        let ghost rankb = choose|r: spec_fn(int) -> nat| pre.rank_ok_with(p as int, b, r);
        proof {
            lemma_no_self_reach(pre, rank0, p as int);
        }
        self.mark_dependents_dirty(p);
        let ghost m = *self;
        proof {
            assert(!m.is_dirty(p as int));
            assert forall|q: int| #[trigger] m.is_dirty(q) == reaches_plus(pre, p as int, q) by {
                assert(!pre.is_dirty(q));
            }
            lemma_same_dep_edges(pre, m);
            lemma_same_listen_edges(pre, m);
        }
        let storage = BindingStorage::new(b.duplicate());
        self.props[p].binding = Some(storage);
        self.props[p].dirty = true;
        let ghost w = *self;
        proof {
            assert(w.props@.len() == pre.props@.len());
            assert forall|q: int| 0 <= q < pre.props@.len() && q != p as int implies w.props@[q]
                == m.props@[q] by {}
            assert(w.binding_of(p as int) == Some(b));
            assert(w.the_binding(p as int) == b);
            assert(w.evals_of(p as int) == 0);
            assert(w.is_dirty(p as int));
            assert(w.props@[p as int].alive == pre.props@[p as int].alive);
            assert(w.props@[p as int].value == pre.props@[p as int].value);
            assert(w.vals() =~= pre.vals());
            lemma_same_dep_edges(m, w);
            lemma_same_listen_edges(m, w);
            assert forall|y: int, q: int| #[trigger] w.edge_props(y, q) == pre.edge_props(y, q) by {
                assert(w.edge_props(y, q) == m.edge_props(y, q));
            }
            assert(w.inv_mid()) by {
                assert forall|k2: int| 0 <= k2 < w.dep_edges@.len() && (#[trigger] w.dep_edges@[k2]).alive implies w.is_alive(w.dep_edges@[k2].source as int) && w.is_bound(
                    w.dep_edges@[k2].reader as int,
                ) by {
                    assert(pre.dep_edges@[k2] == w.dep_edges@[k2]);
                    assert(pre.is_alive(pre.dep_edges@[k2].source as int));
                    assert(pre.is_bound(pre.dep_edges@[k2].reader as int));
                    if w.dep_edges@[k2].reader as int != p as int {
                        assert(w.props@[w.dep_edges@[k2].reader as int] == m.props@[w.dep_edges@[k2].reader as int]);
                    }
                }
                assert forall|k1: int, k2: int| #![trigger w.dep_edges@[k1], w.dep_edges@[k2]]
                    0 <= k1 < w.dep_edges@.len() && 0 <= k2 < w.dep_edges@.len()
                    && w.dep_edges@[k1].alive && w.dep_edges@[k2].alive && w.dep_edges@[k1].source
                    == w.dep_edges@[k2].source && w.dep_edges@[k1].reader == w.dep_edges@[
                    k2
                ].reader implies k1 == k2 by {
                    assert(pre.dep_edges@[k1] == w.dep_edges@[k1]);
                    assert(pre.dep_edges@[k2] == w.dep_edges@[k2]);
                }
                assert forall|k2: int| 0 <= k2 < w.listen_edges@.len()
                    && (#[trigger] w.listen_edges@[k2]).alive implies w.is_alive(
                    w.listen_edges@[k2].source as int,
                ) && w.valid_listener(w.listen_edges@[k2].listener as int) by {
                    assert(pre.listen_edges@[k2] == w.listen_edges@[k2]);
                    assert(pre.is_alive(pre.listen_edges@[k2].source as int));
                    assert(pre.valid_listener(pre.listen_edges@[k2].listener as int));
                }
                assert forall|q: int| #[trigger] w.is_bound(q) implies valid_binding(
                    w.the_binding(q),
                    w.n(),
                ) by {
                    if q != p as int {
                        assert(w.props@[q] == m.props@[q]);
                        assert(m.props@[q].binding == pre.props@[q].binding);
                        assert(m.props@[q].alive == pre.props@[q].alive);
                        assert(pre.is_bound(q));
                        assert(pre.the_binding(q) == w.the_binding(q));
                    }
                }
                assert forall|q: int| #[trigger] w.is_dirty(q) implies w.is_bound(q) by {
                    if q != p as int {
                        assert(0 <= q < pre.props@.len());
                        assert(w.props@[q] == m.props@[q]);
                        assert(m.is_dirty(q));
                        assert(m.is_bound(q));
                    }
                }
                assert forall|x: int, q: int| #[trigger] w.edge_props(x, q) && w.is_dirty(x)
                    implies w.is_dirty(q) by {
                    assert(pre.edge_props(x, q));
                    if x == p as int {
                        lemma_reach_step(pre, p as int, p as int, q);
                        assert(m.is_dirty(q));
                        assert(q != p as int);
                        assert(w.props@[q] == m.props@[q]);
                    } else {
                        assert(w.props@[x] == m.props@[x]);
                        assert(m.is_dirty(x));
                        assert(m.edge_props(x, q));
                        assert(m.is_dirty(q));
                        assert(q != p as int) by {
                            assert(!m.is_dirty(p as int));
                        }
                        assert(w.props@[q] == m.props@[q]);
                    }
                }
                assert forall|q2: int| #[trigger] w.is_bound(q2) && !w.is_dirty(q2) implies w
                    .accurate_at(q2) by {
                    assert(q2 != p as int);
                    assert(w.props@[q2] == m.props@[q2]);
                    assert(m.props@[q2].binding == pre.props@[q2].binding);
                    assert(m.props@[q2].alive == pre.props@[q2].alive);
                    assert(pre.is_bound(q2) && !pre.is_dirty(q2));
                    assert(pre.accurate_at(q2));
                    assert(w.the_binding(q2) == pre.the_binding(q2));
                    assert(w.value_of(q2) == pre.value_of(q2)) by {
                        assert(m.props@[q2].value == pre.props@[q2].value);
                    }
                    assert forall|y: int| #[trigger] w.edge_props(y, q2) <==> w.is_alive(y)
                        && reads_spec(w.the_binding(q2), w.vals()).contains(y) by {
                        assert(w.edge_props(y, q2) == pre.edge_props(y, q2));
                        assert(w.is_alive(y) == pre.is_alive(y));
                    }
                }
            }
            assert(w.rank_ok(rankb)) by {
                assert forall|q: int, x: int| (#[trigger] gets_spec(w.the_binding(q)).contains(x))
                    && w.is_bound(q) implies rankb(x) < rankb(q) by {
                    if q == p as int {
                        assert(gets_spec(b).contains(x));
                    } else {
                        assert(w.props@[q] == m.props@[q]);
                        assert(m.props@[q].binding == pre.props@[q].binding);
                        assert(m.props@[q].alive == pre.props@[q].alive);
                        assert(pre.is_bound(q));
                        assert(gets_spec(pre.the_binding(q)).contains(x));
                    }
                }
            }
        }
        self.sweep_all(Ghost(rankb));
        proof {
            let fin = *self;
            assert(fin.wf()) by {
                assert(fin.rank_ok(rankb)) by {
                    lemma_rank_ok_transfer(w, fin, rankb);
                }
            }
            assert(fin.binding_of(p as int) == Some(b));
            assert(fin.the_binding(p as int) == b);
            assert(fin.evals_of(p as int) == sat_inc(0)) by {
                assert(w.is_dirty(p as int) && !fin.is_dirty(p as int));
            }
            assert(fin.value_of(p as int) == eval_spec(b, fin.vals())) by {
                assert(fin.is_bound(p as int));
                assert(!fin.is_dirty(p as int));
                assert(fin.accurate_at(p as int));
            }
            assert forall|q: int| pre.valid_prop(q) && q != p as int implies #[trigger] fin
                .binding_of(q) == pre.binding_of(q) by {
                assert(fin.binding_of(q) == w.binding_of(q));
                assert(w.props@[q] == m.props@[q]);
                assert(m.props@[q].binding == pre.props@[q].binding);
            }
            assert forall|q: int| pre.valid_prop(q) && q != p as int && !reaches_plus(
                pre,
                p as int,
                q,
            ) implies #[trigger] fin.value_of(q) == pre.value_of(q) by {
                assert(w.props@[q] == m.props@[q]);
                assert(w.is_dirty(q) == m.is_dirty(q));
                assert(!w.is_dirty(q));
                assert(fin.value_of(q) == w.value_of(q));
                assert(m.props@[q].value == pre.props@[q].value);
            }
            assert forall|q: int| pre.valid_prop(q) && q != p as int implies #[trigger] fin
                .evals_of(q) == if reaches_plus(pre, p as int, q) {
                sat_inc(pre.evals_of(q))
            } else {
                pre.evals_of(q)
            } by {
                assert(w.props@[q] == m.props@[q]);
                assert(m.props@[q].binding == pre.props@[q].binding);
                assert(w.evals_of(q) == pre.evals_of(q));
                assert(w.is_dirty(q) == m.is_dirty(q));
                assert(m.is_dirty(q) == reaches_plus(pre, p as int, q));
                assert(!fin.is_dirty(q));
            }
            assert forall|l: int| pre.valid_listener(l) implies #[trigger] fin.fires_of(l)
                == sat_add(pre.fires_of(l), set_hits(pre, p as int, l)) by {
                let swept = hits_pred(w, fin, l);
                let both = set_hits_pred(pre, p as int, l);
                assert forall|q: int| 0 <= q < pre.props@.len() implies #[trigger] both(q) == swept(
                    q,
                ) by {
                    assert(w.edge_listener(q, l) == pre.edge_listener(q, l));
                    assert(!fin.is_dirty(q));
                    if q != p as int {
                        assert(w.props@[q] == m.props@[q]);
                        assert(w.is_dirty(q) == m.is_dirty(q));
                        assert(m.is_dirty(q) == reaches_plus(pre, p as int, q));
                    } else {
                        assert(w.is_dirty(p as int));
                    }
                }
                lemma_count_true_equiv(both, swept, pre.props@.len());
                assert(w.fires_of(l) == pre.fires_of(l));
                assert(fin.fires_of(l) == sat_add(w.fires_of(l), cleaned_hits(w, fin, l)));
                assert(w.props@.len() == pre.props@.len());
            }
            assert forall|x: int, l: int| #[trigger] fin.edge_listener(x, l) == pre.edge_listener(
                x,
                l,
            ) by {
                assert(fin.edge_listener(x, l) == w.edge_listener(x, l));
            }
            assert forall|x: int, q: int| pre.valid_prop(q) && q != p as int && !reaches_plus(
                pre,
                p as int,
                q,
            ) implies #[trigger] fin.edge_props(x, q) == pre.edge_props(x, q) by {
                assert(w.props@[q] == m.props@[q]);
                assert(w.is_dirty(q) == m.is_dirty(q));
                assert(!w.is_dirty(q));
                assert(fin.edge_props(x, q) == w.edge_props(x, q));
            }
        }
    }

    /// Destroy property `p`: drop its binding, unlink every dependency and
    /// subscription edge that touches it, and mark the slot dead. Dependents
    /// are not re-evaluated: they keep their bindings and their last values.
    pub(crate) fn destroy_prop(&mut self, p: usize)
        requires
            old(self).wf(),
            old(self).is_alive(p as int),
        ensures
            PropertySystem::destroy_rel(*old(self), *final(self), p as int),
    {
        let ghost pre = *self;
        let ghost rank0 = choose|r: spec_fn(int) -> nat| pre.rank_ok(r);
        self.kill_edges_touching(p);
        let ghost k = *self;
        self.props[p].binding = None;
        self.props[p].alive = false;
        proof {
            let fin = *self;
            assert(fin.props@.len() == pre.props@.len());
            assert forall|q: int| 0 <= q < pre.props@.len() && q != p as int implies fin.props@[q]
                == pre.props@[q] by {
                assert(fin.props@[q] == k.props@[q]);
            }
            assert(fin.props@[p as int].value == pre.props@[p as int].value);
            assert(!fin.props@[p as int].alive);
            assert(fin.props@[p as int].binding is None);
            assert(fin.props@[p as int].dirty == pre.props@[p as int].dirty);
            assert(fin.vals() =~= pre.vals());
            lemma_same_dep_edges(k, fin);
            lemma_same_listen_edges(k, fin);
            assert forall|x: int, q: int| #[trigger] fin.edge_props(x, q) == (pre.edge_props(x, q)
                && x != p as int && q != p as int) by {
                assert(fin.edge_props(x, q) == k.edge_props(x, q));
            }
            assert forall|x: int, l: int| #[trigger] fin.edge_listener(x, l) == (pre.edge_listener(
                x,
                l,
            ) && x != p as int) by {
                assert(fin.edge_listener(x, l) == k.edge_listener(x, l));
            }
            assert forall|q: int| !(#[trigger] fin.is_dirty(q)) by {
                if 0 <= q < pre.props@.len() && q != p as int {
                    assert(fin.props@[q] == pre.props@[q]);
                    assert(!pre.is_dirty(q));
                } else if q == p as int {
                    assert(!pre.is_dirty(q));
                }
            }
            assert(fin.inv_mid()) by {
                assert forall|k2: int| 0 <= k2 < fin.dep_edges@.len() && (#[trigger] fin.dep_edges@[k2]).alive implies fin.is_alive(fin.dep_edges@[k2].source as int) && fin.is_bound(
                    fin.dep_edges@[k2].reader as int,
                ) by {
                    assert(fin.dep_edges@[k2] == pre.dep_edges@[k2]);
                    let src = fin.dep_edges@[k2].source as int;
                    let rdr = fin.dep_edges@[k2].reader as int;
                    assert(src != p as int && rdr != p as int);
                    assert(pre.is_alive(src) && pre.is_bound(rdr));
                    assert(fin.props@[src] == pre.props@[src]);
                    assert(fin.props@[rdr] == pre.props@[rdr]);
                }
                assert forall|k1: int, k2: int| #![trigger fin.dep_edges@[k1], fin.dep_edges@[k2]]
                    0 <= k1 < fin.dep_edges@.len() && 0 <= k2 < fin.dep_edges@.len()
                    && fin.dep_edges@[k1].alive && fin.dep_edges@[k2].alive && fin.dep_edges@[
                    k1
                ].source == fin.dep_edges@[k2].source && fin.dep_edges@[k1].reader
                    == fin.dep_edges@[k2].reader implies k1 == k2 by {
                    assert(fin.dep_edges@[k1] == pre.dep_edges@[k1]);
                    assert(fin.dep_edges@[k2] == pre.dep_edges@[k2]);
                }
                assert forall|k2: int| 0 <= k2 < fin.listen_edges@.len()
                    && (#[trigger] fin.listen_edges@[k2]).alive implies fin.is_alive(
                    fin.listen_edges@[k2].source as int,
                ) && fin.valid_listener(fin.listen_edges@[k2].listener as int) by {
                    assert(fin.listen_edges@[k2] == pre.listen_edges@[k2]);
                    let src = fin.listen_edges@[k2].source as int;
                    assert(src != p as int);
                    assert(pre.is_alive(src));
                    assert(fin.props@[src] == pre.props@[src]);
                }
                assert forall|q: int| #[trigger] fin.is_bound(q) implies valid_binding(
                    fin.the_binding(q),
                    fin.n(),
                ) by {
                    assert(q != p as int);
                    assert(fin.props@[q] == pre.props@[q]);
                    assert(pre.is_bound(q));
                }
                assert forall|q2: int| #[trigger] fin.is_bound(q2) && !fin.is_dirty(q2) implies fin
                    .accurate_at(q2) by {
                    assert(q2 != p as int);
                    assert(fin.props@[q2] == pre.props@[q2]);
                    assert(pre.is_bound(q2) && !pre.is_dirty(q2));
                    assert(pre.accurate_at(q2));
                    assert(fin.the_binding(q2) == pre.the_binding(q2));
                    assert forall|y: int| #[trigger] fin.edge_props(y, q2) <==> fin.is_alive(y)
                        && reads_spec(fin.the_binding(q2), fin.vals()).contains(y) by {
                        assert(fin.edge_props(y, q2) == (pre.edge_props(y, q2) && y != p as int
                            && q2 != p as int));
                        if y != p as int && 0 <= y < pre.props@.len() {
                            assert(fin.props@[y] == pre.props@[y]);
                        }
                    }
                }
            }
            assert(fin.acyclic()) by {
                assert forall|q: int, x: int| (#[trigger] gets_spec(
                    fin.the_binding(q),
                ).contains(x)) && fin.is_bound(q) implies rank0(x) < rank0(q) by {
                    assert(q != p as int);
                    assert(fin.props@[q] == pre.props@[q]);
                    assert(pre.is_bound(q));
                    assert(gets_spec(pre.the_binding(q)).contains(x));
                }
                assert(fin.rank_ok(rank0));
            }
            assert forall|q: int| pre.valid_prop(q) implies #[trigger] fin.value_of(q) == pre
                .value_of(q) by {
                if q != p as int {
                    assert(fin.props@[q] == pre.props@[q]);
                }
            }
            assert forall|q: int| pre.valid_prop(q) && q != p as int implies #[trigger] fin
                .binding_of(q) == pre.binding_of(q) && fin.evals_of(q) == pre.evals_of(q) by {
                assert(fin.props@[q] == pre.props@[q]);
            }
            assert forall|q: int| q != p as int implies #[trigger] fin.is_alive(q) == pre.is_alive(
                q,
            ) by {
                if 0 <= q < pre.props@.len() {
                    assert(fin.props@[q] == pre.props@[q]);
                }
            }
        }
    }

    /// Create a fresh property: alive, literal, with the default value.
    pub(crate) fn new_property(&mut self) -> (p: usize)
        requires
            old(self).wf(),
        ensures
            final(self).wf(),
            p as int == old(self).n(),
            final(self).n() == old(self).n() + 1,
            final(self).n_listeners() == old(self).n_listeners(),
            final(self).is_alive(p as int),
            final(self).binding_of(p as int) is None,
            final(self).value_of(p as int) == 0,
            final(self).evals_of(p as int) == 0,
            forall|q: int| old(self).valid_prop(q) ==> #[trigger] final(self).props@[q] == old(self).props@[q],
            final(self).listeners@ == old(self).listeners@,
            forall|x: int, q: int| #[trigger] final(self).edge_props(x, q) == old(self).edge_props(
                x,
                q,
            ),
            forall|x: int, l: int| #[trigger] final(self).edge_listener(x, l) == old(self).edge_listener(x, l),
    {
        let ghost pre = *self;
        let ghost rank0 = choose|r: spec_fn(int) -> nat| pre.rank_ok(r);
        let p = self.props.len();
        self.props.push(PropSlot { alive: true, value: 0, binding: None, dirty: false });
        proof {
            let fin = *self;
            lemma_same_dep_edges(pre, fin);
            lemma_same_listen_edges(pre, fin);
            assert forall|q: int| !(#[trigger] fin.is_dirty(q)) by {
                if 0 <= q < pre.props@.len() {
                    assert(fin.props@[q] == pre.props@[q]);
                    assert(!pre.is_dirty(q));
                }
            }
            assert(fin.inv_mid()) by {
                assert forall|k2: int| 0 <= k2 < fin.dep_edges@.len() && (#[trigger] fin.dep_edges@[k2]).alive implies fin.is_alive(fin.dep_edges@[k2].source as int) && fin.is_bound(
                    fin.dep_edges@[k2].reader as int,
                ) by {
                    assert(pre.is_alive(pre.dep_edges@[k2].source as int));
                    assert(pre.is_bound(pre.dep_edges@[k2].reader as int));
                    assert(fin.props@[pre.dep_edges@[k2].source as int] == pre.props@[pre.dep_edges@[k2].source as int]);
                    assert(fin.props@[pre.dep_edges@[k2].reader as int] == pre.props@[pre.dep_edges@[k2].reader as int]);
                }
                assert forall|k2: int| 0 <= k2 < fin.listen_edges@.len()
                    && (#[trigger] fin.listen_edges@[k2]).alive implies fin.is_alive(
                    fin.listen_edges@[k2].source as int,
                ) && fin.valid_listener(fin.listen_edges@[k2].listener as int) by {
                    assert(pre.is_alive(pre.listen_edges@[k2].source as int));
                    assert(fin.props@[pre.listen_edges@[k2].source as int] == pre.props@[pre.listen_edges@[k2].source as int]);
                }
                assert forall|q: int| #[trigger] fin.is_bound(q) implies valid_binding(
                    fin.the_binding(q),
                    fin.n(),
                ) by {
                    assert(q != p as int);
                    assert(fin.props@[q] == pre.props@[q]);
                    assert(pre.is_bound(q));
                    assert(valid_binding(pre.the_binding(q), pre.n()));
                }
                assert forall|q2: int| #[trigger] fin.is_bound(q2) && !fin.is_dirty(q2) implies fin
                    .accurate_at(q2) by {
                    assert(q2 != p as int);
                    assert(fin.props@[q2] == pre.props@[q2]);
                    assert(pre.is_bound(q2) && !pre.is_dirty(q2));
                    assert(pre.accurate_at(q2));
                    assert(fin.the_binding(q2) == pre.the_binding(q2));
                    assert(valid_binding(pre.the_binding(q2), pre.n()));
                    assert forall|y: int| #[trigger] reads_spec(
                        pre.the_binding(q2),
                        pre.vals(),
                    ).contains(y) implies fin.value_of(y) == pre.value_of(y) by {
                        crate::binding::lemma_reads_subset_of_gets(
                            pre.the_binding(q2),
                            pre.vals(),
                        );
                        assert(gets_spec(pre.the_binding(q2)).contains(y));
                        assert(fin.props@[y] == pre.props@[y]);
                    }
                    lemma_eval_transfer(pre.the_binding(q2), pre, fin);
                    assert(fin.value_of(q2) == pre.value_of(q2));
                    assert forall|y: int| #[trigger] fin.edge_props(y, q2) <==> fin.is_alive(y)
                        && reads_spec(fin.the_binding(q2), fin.vals()).contains(y) by {
                        assert(fin.edge_props(y, q2) == pre.edge_props(y, q2));
                        if y == p as int {
                            crate::binding::lemma_reads_subset_of_gets(
                                pre.the_binding(q2),
                                pre.vals(),
                            );
                            assert(!reads_spec(pre.the_binding(q2), pre.vals()).contains(y));
                            if pre.edge_props(y, q2) {
                                let j = choose|j: int| pre.dep_edge_is(j, y, q2);
                                assert(pre.is_alive(y));
                            }
                        } else if 0 <= y < pre.props@.len() {
                            assert(fin.props@[y] == pre.props@[y]);
                        } else {
                            if pre.edge_props(y, q2) {
                                let j = choose|j: int| pre.dep_edge_is(j, y, q2);
                                assert(pre.is_alive(y));
                            }
                            crate::binding::lemma_reads_subset_of_gets(
                                pre.the_binding(q2),
                                pre.vals(),
                            );
                        }
                    }
                }
            }
            assert(fin.acyclic()) by {
                assert forall|q: int, x: int| (#[trigger] gets_spec(
                    fin.the_binding(q),
                ).contains(x)) && fin.is_bound(q) implies rank0(x) < rank0(q) by {
                    assert(q != p as int);
                    assert(fin.props@[q] == pre.props@[q]);
                    assert(pre.is_bound(q));
                    assert(gets_spec(pre.the_binding(q)).contains(x));
                }
                assert(fin.rank_ok(rank0));
            }
        }
        p
    }

    /// Create a fresh change listener with a notification count of zero.
    pub(crate) fn new_listener(&mut self) -> (l: usize)
        requires
            old(self).wf(),
        ensures
            final(self).wf(),
            l as int == old(self).n_listeners(),
            final(self).n_listeners() == old(self).n_listeners() + 1,
            final(self).props@ == old(self).props@,
            final(self).dep_edges@ == old(self).dep_edges@,
            final(self).listen_edges@ == old(self).listen_edges@,
            final(self).fires_of(l as int) == 0,
            forall|m: int| old(self).valid_listener(m) ==> #[trigger] final(self).fires_of(m)
                == old(self).fires_of(m),
    {
        let ghost pre = *self;
        let l = self.listeners.len();
        self.listeners.push(ListenerSlot { fires: 0 });
        proof {
            let fin = *self;
            lemma_props_transfer(pre, fin);
            lemma_same_dep_edges(pre, fin);
            lemma_same_listen_edges(pre, fin);
            assert(fin.wf()) by {
                assert forall|q2: int| #[trigger] fin.is_bound(q2) && !fin.is_dirty(q2) implies fin
                    .accurate_at(q2) by {
                    assert(pre.is_bound(q2) && !pre.is_dirty(q2));
                    assert(pre.accurate_at(q2));
                    assert forall|y: int| #[trigger] fin.edge_props(y, q2) <==> fin.is_alive(y)
                        && reads_spec(fin.the_binding(q2), fin.vals()).contains(y) by {
                        assert(fin.edge_props(y, q2) == pre.edge_props(y, q2));
                    }
                }
                let rank0 = choose|r: spec_fn(int) -> nat| pre.rank_ok(r);
                assert forall|q: int, x: int| (#[trigger] gets_spec(
                    fin.the_binding(q),
                ).contains(x)) && fin.is_bound(q) implies rank0(x) < rank0(q) by {
                    assert(pre.is_bound(q));
                    assert(fin.the_binding(q) == pre.the_binding(q));
                    assert(gets_spec(pre.the_binding(q)).contains(x));
                }
                assert(fin.rank_ok(rank0));
            }
        }
        l
    }

    /// Subscribe listener `l` to property `p`: from now on each assignment or
    /// re-evaluation of `p` notifies `l` once.
    pub(crate) fn subscribe(&mut self, l: usize, p: usize)
        requires
            old(self).wf(),
            old(self).is_alive(p as int),
            old(self).valid_listener(l as int),
        ensures
            final(self).wf(),
            final(self).props@ == old(self).props@,
            final(self).listeners@ == old(self).listeners@,
            final(self).dep_edges@ == old(self).dep_edges@,
            forall|x: int, m: int| #[trigger] final(self).edge_listener(x, m) == (old(self).edge_listener(x, m) || (x == p as int && m == l as int)),
    {
        let ghost pre = *self;
        self.add_listen_edge(p, l);
        proof {
            let fin = *self;
            lemma_props_transfer(pre, fin);
            lemma_same_dep_edges(pre, fin);
            assert(fin.wf()) by {
                assert forall|q2: int| #[trigger] fin.is_bound(q2) && !fin.is_dirty(q2) implies fin
                    .accurate_at(q2) by {
                    assert(pre.is_bound(q2) && !pre.is_dirty(q2));
                    assert(pre.accurate_at(q2));
                    assert forall|y: int| #[trigger] fin.edge_props(y, q2) <==> fin.is_alive(y)
                        && reads_spec(fin.the_binding(q2), fin.vals()).contains(y) by {
                        assert(fin.edge_props(y, q2) == pre.edge_props(y, q2));
                    }
                }
                let rank0 = choose|r: spec_fn(int) -> nat| pre.rank_ok(r);
                lemma_rank_ok_transfer(pre, fin, rank0);
                assert(fin.rank_ok(rank0));
            }
        }
    }

    /// The current value of property `p`: a plain read, with no dependency
    /// registration (the engine itself is never evaluating when its callers
    /// run, so a top-level read records nothing).
    pub(crate) fn read_value(&self, p: usize) -> (r: u64)
        requires
            p < self.props.len(),
        ensures
            r == self.value_of(p as int),
    {
        self.props[p].value
    }

    /// Whether property `p` is still alive.
    pub(crate) fn read_alive(&self, p: usize) -> (r: bool)
        requires
            p < self.props.len(),
        ensures
            r == self.is_alive(p as int),
    {
        self.props[p].alive
    }

    /// How many times property `p`'s current binding has been evaluated.
    pub(crate) fn read_evals(&self, p: usize) -> (r: u64)
        requires
            p < self.props.len(),
        ensures
            r == self.evals_of(p as int),
    {
        match &self.props[p].binding {
            Some(bs) => bs.evals,
            None => 0,
        }
    }

    /// The notification count of listener `l`.
    pub(crate) fn read_fires(&self, l: usize) -> (r: u64)
        requires
            l < self.listeners.len(),
        ensures
            r == self.fires_of(l as int),
    {
        self.listeners[l].fires
    }

    /// An empty system: no properties, no listeners, no edges.
    pub fn new() -> (s: PropertySystem)
        ensures
            s.wf(),
            s.n() == 0,
            s.n_listeners() == 0,
    {
        let s = PropertySystem {
            props: Vec::new(),
            listeners: Vec::new(),
            dep_edges: Vec::new(),
            listen_edges: Vec::new(),
        };
        proof {
            let rank0 = (|p: int| 0nat);
            assert(s.rank_ok(rank0));
        }
        s
    }
}

/// Some position of `s` holds `q`.
pub open spec fn stack_has(s: Seq<usize>, q: int) -> bool {
    exists|j: int| 0 <= j < s.len() && (#[trigger] s[j]) as int == q
}

/// How many of `0, 1, ..., n - 1` satisfy `f`.
pub open spec fn count_true(f: spec_fn(int) -> bool, n: nat) -> nat
    decreases n,
{
    if n == 0 {
        0
    } else {
        count_true(f, (n - 1) as nat) + if f(n - 1) {
            1nat
        } else {
            0nat
        }
    }
}

/// Listener `l` is notified for `q` in the step from `pre` to `post`: `q`
/// went from dirty to clean and `l` watches `q`.
pub open spec fn hits_pred(pre: PropertySystem, post: PropertySystem, l: int) -> spec_fn(
    int,
) -> bool {
    |q: int| pre.is_dirty(q) && !post.is_dirty(q) && pre.edge_listener(q, l)
}

/// How many notifications listener `l` receives in the step from `pre` to
/// `post`: one per watched property that went clean.
pub open spec fn cleaned_hits(pre: PropertySystem, post: PropertySystem, l: int) -> nat {
    count_true(hits_pred(pre, post, l), pre.props@.len())
}

/// Property `q` triggers a notification of listener `l` when `p` is assigned
/// or re-bound: `q` is `p` itself or a (transitive) dependent, and `l`
/// watches `q`.
pub open spec fn set_hits_pred(pre: PropertySystem, p: int, l: int) -> spec_fn(int) -> bool {
    |q: int| (q == p || reaches_plus(pre, p, q)) && pre.edge_listener(q, l)
}

/// Listener `l` is notified when property `p` is assigned or re-bound: once
/// per watched property among `p` and `p`'s (transitive) dependents.
pub open spec fn set_hits(pre: PropertySystem, p: int, l: int) -> nat {
    count_true(set_hits_pred(pre, p, l), pre.props@.len())
}

/// The largest rank among `0, 1, ..., n - 1`.
pub open spec fn max_rank_below(rank: spec_fn(int) -> nat, n: nat) -> nat
    decreases n,
{
    if n == 0 {
        0
    } else {
        let rest = max_rank_below(rank, (n - 1) as nat);
        if rank(n - 1) > rest {
            rank(n - 1)
        } else {
            rest
        }
    }
}

/// `max_rank_below` bounds every rank below `n`.
pub proof fn lemma_max_rank_below(rank: spec_fn(int) -> nat, n: nat)
    ensures
        forall|x: int| 0 <= x < n ==> #[trigger] rank(x) <= max_rank_below(rank, n),
    decreases n,
{
    if n > 0 {
        lemma_max_rank_below(rank, (n - 1) as nat);
    }
}

/// Counting respects pointwise-equal predicates.
pub proof fn lemma_count_true_equiv(f: spec_fn(int) -> bool, g: spec_fn(int) -> bool, n: nat)
    requires
        forall|q: int| 0 <= q < n ==> #[trigger] f(q) == g(q),
    ensures
        count_true(f, n) == count_true(g, n),
    decreases n,
{
    if n > 0 {
        lemma_count_true_equiv(f, g, (n - 1) as nat);
    }
}

/// A predicate false everywhere counts zero.
pub proof fn lemma_count_true_zero(f: spec_fn(int) -> bool, n: nat)
    requires
        forall|q: int| 0 <= q < n ==> !(#[trigger] f(q)),
    ensures
        count_true(f, n) == 0,
    decreases n,
{
    if n > 0 {
        lemma_count_true_zero(f, (n - 1) as nat);
    }
}

/// Counting a disjoint union of two predicates adds their counts.
pub proof fn lemma_count_true_sum(
    f: spec_fn(int) -> bool,
    g: spec_fn(int) -> bool,
    h: spec_fn(int) -> bool,
    n: nat,
)
    requires
        forall|q: int| 0 <= q < n ==> #[trigger] h(q) == (f(q) || g(q)) && !(f(q) && g(q)),
    ensures
        count_true(h, n) == count_true(f, n) + count_true(g, n),
    decreases n,
{
    if n > 0 {
        lemma_count_true_sum(f, g, h, (n - 1) as nat);
    }
}

/// A predicate true at exactly one position (at most) counts one or zero.
pub proof fn lemma_count_true_single(f: spec_fn(int) -> bool, n: nat, q0: int, c: bool)
    requires
        forall|q: int| 0 <= q < n ==> #[trigger] f(q) == (q == q0 && c),
        0 <= q0 < n,
    ensures
        count_true(f, n) == if c {
            1nat
        } else {
            0nat
        },
    decreases n,
{
    if n > 0 {
        if q0 == n - 1 {
            lemma_count_true_zero(f, (n - 1) as nat);
        } else {
            lemma_count_true_single(f, (n - 1) as nat, q0, c);
        }
    }
}

/// Shrinking a predicate strictly at one witness strictly shrinks the count.
pub proof fn lemma_count_true_strict(f: spec_fn(int) -> bool, g: spec_fn(int) -> bool, n: nat, q0: int)
    requires
        forall|q: int| 0 <= q < n ==> (#[trigger] g(q) ==> f(q)),
        0 <= q0 < n,
        f(q0),
        !g(q0),
    ensures
        count_true(g, n) < count_true(f, n),
    decreases n,
{
    if n > 0 {
        if q0 == n - 1 {
            lemma_count_true_le(f, g, (n - 1) as nat);
        } else {
            lemma_count_true_strict(f, g, (n - 1) as nat, q0);
        }
    }
}

/// A pointwise-smaller predicate counts no more.
pub proof fn lemma_count_true_le(f: spec_fn(int) -> bool, g: spec_fn(int) -> bool, n: nat)
    requires
        forall|q: int| 0 <= q < n ==> (#[trigger] g(q) ==> f(q)),
    ensures
        count_true(g, n) <= count_true(f, n),
    decreases n,
{
    if n > 0 {
        lemma_count_true_le(f, g, (n - 1) as nat);
    }
}

/// `path` walks live dependency edges of `s`, each step from a property to
/// one of its readers.
pub open spec fn dep_path(s: PropertySystem, path: Seq<int>) -> bool {
    forall|i: int| 0 <= i < path.len() - 1 ==> #[trigger] s.edge_props(path[i], path[i + 1])
}

/// Property `q` is a (transitive, proper) dependent of `a`: some non-empty
/// chain of dependency edges leads from `a` to `q`.
pub open spec fn reaches_plus(s: PropertySystem, a: int, q: int) -> bool {
    exists|path: Seq<int>|
        path.len() >= 2 && path[0] == a && path.last() == q && #[trigger] dep_path(s, path)
}

/// A single edge out of `a`, or out of a dependent of `a`, reaches a
/// dependent of `a`.
pub proof fn lemma_reach_step(s: PropertySystem, a: int, q: int, r: int)
    requires
        a == q || reaches_plus(s, a, q),
        s.edge_props(q, r),
    ensures
        reaches_plus(s, a, r),
{
    if a == q {
        let path = seq![a, r];
        assert forall|i: int| 0 <= i < path.len() - 1 implies #[trigger] s.edge_props(
            path[i],
            path[i + 1],
        ) by {
            assert(path[i] == a && path[i + 1] == r);
        }
        assert(dep_path(s, path));
        assert(path.len() >= 2 && path[0] == a && path.last() == r);
    } else {
        let path = choose|path: Seq<int>|
            path.len() >= 2 && path[0] == a && path.last() == q && #[trigger] dep_path(s, path);
        let path2 = path.push(r);
        assert forall|i: int| 0 <= i < path2.len() - 1 implies #[trigger] s.edge_props(
            path2[i],
            path2[i + 1],
        ) by {
            if i < path.len() - 1 {
                assert(s.edge_props(path[i], path[i + 1]));
                assert(path2[i] == path[i] && path2[i + 1] == path[i + 1]);
            } else {
                assert(path2[i] == path.last() && path2[i + 1] == r);
            }
        }
        assert(dep_path(s, path2));
        assert(path2.len() >= 2 && path2[0] == a && path2.last() == r);
    }
}

/// If the dirty set contains every reader reachable in one step from `start`
/// or from a dirty property, it contains every proper dependent of `start`.
pub proof fn lemma_dirty_covers_path(s: PropertySystem, start: int, path: Seq<int>)
    requires
        forall|q: int, r: int| (q == start || s.is_dirty(q)) && #[trigger] s.edge_props(q, r)
            ==> s.is_dirty(r),
        dep_path(s, path),
        path.len() >= 2,
        path[0] == start,
    ensures
        s.is_dirty(path.last()),
    decreases path.len(),
{
    if path.len() == 2 {
        assert(s.edge_props(path[0int], path[0int + 1]));
    } else {
        let prefix = path.drop_last();
        assert forall|i: int| 0 <= i < prefix.len() - 1 implies #[trigger] s.edge_props(
            prefix[i],
            prefix[i + 1],
        ) by {
            assert(s.edge_props(path[i], path[i + 1]));
        }
        lemma_dirty_covers_path(s, start, prefix);
        let j = path.len() - 2;
        assert(s.edge_props(path[j], path[j + 1]));
        assert(prefix.last() == path[j]);
    }
}

/// Two systems with the same dependency-edge arena have the same dependency
/// relation.
pub proof fn lemma_same_dep_edges(a: PropertySystem, b: PropertySystem)
    requires
        a.dep_edges@ == b.dep_edges@,
    ensures
        forall|x: int, q: int| #[trigger] a.edge_props(x, q) == b.edge_props(x, q),
{
    assert forall|x: int, q: int| #[trigger] a.edge_props(x, q) == b.edge_props(x, q) by {
        if a.edge_props(x, q) {
            let k = choose|k: int| a.dep_edge_is(k, x, q);
            assert(b.dep_edge_is(k, x, q));
        }
        if b.edge_props(x, q) {
            let k = choose|k: int| b.dep_edge_is(k, x, q);
            assert(a.dep_edge_is(k, x, q));
        }
    }
}

/// Two systems with the same subscription-edge arena have the same
/// subscription relation.
pub proof fn lemma_same_listen_edges(a: PropertySystem, b: PropertySystem)
    requires
        a.listen_edges@ == b.listen_edges@,
    ensures
        forall|x: int, l: int| #[trigger] a.edge_listener(x, l) == b.edge_listener(x, l),
{
    assert forall|x: int, l: int| #[trigger] a.edge_listener(x, l) == b.edge_listener(x, l) by {
        if a.edge_listener(x, l) {
            let k = choose|k: int| a.listen_edge_is(k, x, l);
            assert(b.listen_edge_is(k, x, l));
        }
        if b.edge_listener(x, l) {
            let k = choose|k: int| b.listen_edge_is(k, x, l);
            assert(a.listen_edge_is(k, x, l));
        }
    }
}

/// A binding evaluates the same way in two systems whose values agree on
/// everything the evaluation reads.
pub proof fn lemma_eval_transfer(b: Binding, s1: PropertySystem, s2: PropertySystem)
    requires
        valid_binding(b, s1.n()),
        s1.n() <= s2.n(),
        forall|p: int| #[trigger] reads_spec(b, s1.vals()).contains(p) ==> s2.value_of(p)
            == s1.value_of(p),
    ensures
        eval_spec(b, s2.vals()) == eval_spec(b, s1.vals()),
        reads_spec(b, s2.vals()) == reads_spec(b, s1.vals()),
{
    crate::binding::lemma_reads_subset_of_gets(b, s1.vals());
    assert forall|p: int| #[trigger] reads_spec(b, s1.vals()).contains(p) implies 0 <= p
        < s1.vals().len() && p < s2.vals().len() && s1.vals()[p] == s2.vals()[p] by {
        assert(gets_spec(b).contains(p));
    }
    crate::binding::lemma_eval_agrees(b, s1.vals(), s2.vals());
}

/// A rank that orders one system's bindings orders any system with the same
/// shape and the same bindings.
pub proof fn lemma_rank_ok_transfer(
    pre: PropertySystem,
    post: PropertySystem,
    rank: spec_fn(int) -> nat,
)
    requires
        PropertySystem::same_shape(pre, post),
        PropertySystem::bindings_unchanged(pre, post),
        pre.rank_ok(rank),
    ensures
        post.rank_ok(rank),
{
    assert forall|q: int, x: int| (#[trigger] gets_spec(post.the_binding(q)).contains(x))
        && post.is_bound(q) implies rank(x) < rank(q) by {
        assert(post.binding_of(q) == pre.binding_of(q));
        assert(pre.is_bound(q));
        assert(pre.the_binding(q) == post.the_binding(q));
        assert(gets_spec(pre.the_binding(q)).contains(x));
    }
}

/// Two systems with the same property slots agree on everything the slots
/// determine.
pub proof fn lemma_props_transfer(pre: PropertySystem, post: PropertySystem)
    requires
        pre.props@ == post.props@,
    ensures
        forall|p: int| #[trigger] post.is_bound(p) == pre.is_bound(p),
        forall|p: int| #[trigger] post.is_dirty(p) == pre.is_dirty(p),
        forall|p: int| #[trigger] post.is_alive(p) == pre.is_alive(p),
        forall|p: int| #[trigger] post.value_of(p) == pre.value_of(p),
        forall|p: int| #[trigger] post.binding_of(p) == pre.binding_of(p),
        forall|p: int| #[trigger] post.the_binding(p) == pre.the_binding(p),
        forall|p: int| #[trigger] post.evals_of(p) == pre.evals_of(p),
        post.vals() == pre.vals(),
        post.n() == pre.n(),
        pre.bindings_wf() ==> post.bindings_wf(),
        pre.dirty_wf() ==> post.dirty_wf(),
{
    assert(post.vals() =~= pre.vals());
    if pre.bindings_wf() {
        assert forall|p: int| #[trigger] post.is_bound(p) implies valid_binding(
            post.the_binding(p),
            post.n(),
        ) by {
            assert(pre.is_bound(p));
        }
    }
    if pre.dirty_wf() {
        assert forall|p: int| #[trigger] post.is_dirty(p) implies post.is_bound(p) by {
            assert(pre.is_dirty(p));
        }
    }
}

/// In a well-formed system at rest, every dependency edge climbs the rank.
pub proof fn lemma_edges_respect_rank(s: PropertySystem, rank: spec_fn(int) -> nat)
    requires
        s.inv_mid(),
        s.all_clean(),
        s.rank_ok(rank),
    ensures
        forall|x: int, q: int| #[trigger] s.edge_props(x, q) ==> rank(x) < rank(q),
{
    assert forall|x: int, q: int| #[trigger] s.edge_props(x, q) implies rank(x) < rank(q) by {
        let k = choose|k: int| s.dep_edge_is(k, x, q);
        assert(s.dep_edges@[k].alive);
        assert(s.is_bound(q));
        assert(!s.is_dirty(q));
        assert(s.accurate_at(q));
        assert(reads_spec(s.the_binding(q), s.vals()).contains(x));
        crate::binding::lemma_reads_subset_of_gets(s.the_binding(q), s.vals());
        assert(gets_spec(s.the_binding(q)).contains(x));
    }
}

/// Along a dependency path the rank strictly increases.
pub proof fn lemma_path_rank_increase(s: PropertySystem, rank: spec_fn(int) -> nat, path: Seq<int>)
    requires
        forall|x: int, q: int| #[trigger] s.edge_props(x, q) ==> rank(x) < rank(q),
        dep_path(s, path),
        path.len() >= 2,
    ensures
        rank(path[0]) < rank(path.last()),
    decreases path.len(),
{
    if path.len() == 2 {
        assert(s.edge_props(path[0int], path[0int + 1]));
    } else {
        let prefix = path.drop_last();
        assert forall|i: int| 0 <= i < prefix.len() - 1 implies #[trigger] s.edge_props(
            prefix[i],
            prefix[i + 1],
        ) by {
            assert(s.edge_props(path[i], path[i + 1]));
        }
        lemma_path_rank_increase(s, rank, prefix);
        let j = path.len() - 2;
        assert(s.edge_props(path[j], path[j + 1]));
        assert(prefix.last() == path[j]);
    }
}

/// A well-formed system at rest has no property among its own proper
/// dependents: the dependency graph is cycle-free.
pub proof fn lemma_no_self_reach(s: PropertySystem, rank: spec_fn(int) -> nat, p: int)
    requires
        s.inv_mid(),
        s.all_clean(),
        s.rank_ok(rank),
    ensures
        !reaches_plus(s, p, p),
{
    lemma_edges_respect_rank(s, rank);
    if reaches_plus(s, p, p) {
        let path = choose|path: Seq<int>|
            path.len() >= 2 && path[0] == p && path.last() == p && #[trigger] dep_path(s, path);
        lemma_path_rank_increase(s, rank, path);
    }
}

/// An update sweep that does nothing is a valid sweep step.
pub proof fn lemma_sweep_step_refl(s: PropertySystem)
    requires
        s.inv_mid(),
    ensures
        PropertySystem::sweep_step(s, s),
{
    assert forall|l: int| s.valid_listener(l) implies #[trigger] s.fires_of(l) == sat_add(
        s.fires_of(l),
        cleaned_hits(s, s, l),
    ) by {
        lemma_count_true_zero(hits_pred(s, s, l), s.props@.len());
    }
}

/// Two consecutive sweep steps form one sweep step.
pub proof fn lemma_sweep_step_trans(a: PropertySystem, b: PropertySystem, c: PropertySystem)
    requires
        PropertySystem::sweep_step(a, b),
        PropertySystem::sweep_step(b, c),
    ensures
        PropertySystem::sweep_step(a, c),
{
    assert forall|q: int| a.valid_prop(q) implies #[trigger] c.evals_of(q) == if a.is_dirty(q)
        && !c.is_dirty(q) {
        sat_inc(a.evals_of(q))
    } else {
        a.evals_of(q)
    } by {
        assert(b.evals_of(q) == if a.is_dirty(q) && !b.is_dirty(q) {
            sat_inc(a.evals_of(q))
        } else {
            a.evals_of(q)
        });
    }
    assert forall|l: int| a.valid_listener(l) implies #[trigger] c.fires_of(l) == sat_add(
        a.fires_of(l),
        cleaned_hits(a, c, l),
    ) by {
        let f = hits_pred(a, b, l);
        let g = hits_pred(b, c, l);
        let h = hits_pred(a, c, l);
        assert forall|q: int| 0 <= q < a.props@.len() implies #[trigger] h(q) == (f(q) || g(q))
            && !(f(q) && g(q)) by {
            assert(b.edge_listener(q, l) == a.edge_listener(q, l));
            assert(c.is_dirty(q) ==> b.is_dirty(q));
            assert(b.is_dirty(q) ==> a.is_dirty(q));
        }
        lemma_count_true_sum(f, g, h, a.props@.len());
        assert(b.props@.len() == a.props@.len());
        crate::arith::lemma_sat_add_assoc(
            a.fires_of(l),
            cleaned_hits(a, b, l),
            cleaned_hits(b, c, l),
        );
    }
}

} // verus!
