//! The engine's guarantees, stated and proved as laws over the update
//! relations: what assigning, binding and destroying properties promises to
//! every client of the system.

use vstd::prelude::*;

use crate::arith::{sat_add, sat_inc, wadd, wmul};
use crate::binding::Binding;
use crate::properties::{ChangeEvent, Property};
use crate::system::{
    dep_path, lemma_count_true_single, reaches_plus, set_hits, set_hits_pred,
    PropertySystem,
};

verus! {

broadcast use vstd::set::group_set_axioms, vstd::seq::group_seq_axioms;

/// Round trip: assigning a literal value to a property makes exactly that
/// value readable, whatever was stored or bound before.
pub proof fn lemma_set_get_round_trip(pre: PropertySystem, post: PropertySystem, p: Property, v: u64)
    requires
        PropertySystem::set_rel(pre, post, p.id(), v),
    ensures
        post.value_of(p.id()) == v,
        post.binding_of(p.id()) is None,
{
}

/// Binding recomputation: with `area` bound to the product of `width` and
/// `height` (a literal property), assigning `width` synchronously updates
/// `area` to the new product — before the assignment returns — and
/// re-evaluates `area`'s binding exactly once.
pub proof fn lemma_product_binding_tracks(
    pre: PropertySystem,
    post: PropertySystem,
    width: Property,
    height: Property,
    area: Property,
    v: u64,
)
    requires
        pre.wf(),
        pre.is_alive(width.id()),
        pre.is_bound(area.id()),
        pre.the_binding(area.id()) == Binding::Mul(
            Box::new(Binding::Get(width.id)),
            Box::new(Binding::Get(height.id)),
        ),
        pre.binding_of(height.id()) is None,
        pre.is_alive(height.id()),
        width.id() != height.id(),
        width.id() != area.id(),
        height.id() != area.id(),
        PropertySystem::set_rel(pre, post, width.id(), v),
    ensures
        post.value_of(area.id()) == wmul(v, pre.value_of(height.id())),
        post.evals_of(area.id()) == sat_inc(pre.evals_of(area.id())),
{
    let b = pre.the_binding(area.id());
    let gw = Binding::Get(width.id);
    let gh = Binding::Get(height.id);
    // `area` reads `width`, so it is a dependent and is re-evaluated
    assert(crate::binding::reads_spec(b, pre.vals()) == crate::binding::reads_spec(
        gw,
        pre.vals(),
    ).union(crate::binding::reads_spec(gh, pre.vals())));
    assert(crate::binding::reads_spec(gw, pre.vals()) == Set::empty().insert(width.id()));
    assert(crate::binding::reads_spec(gh, pre.vals()) == Set::empty().insert(height.id()));
    assert(crate::binding::reads_spec(b, pre.vals()).contains(width.id()));
    assert(pre.accurate_at(area.id()));
    assert(pre.edge_props(width.id(), area.id()));
    crate::system::lemma_reach_step(pre, width.id(), width.id(), area.id());
    assert(reaches_plus(pre, width.id(), area.id()));
    // `height` has no binding, so nothing leads into it and it keeps its value
    assert(!reaches_plus(pre, width.id(), height.id())) by {
        if reaches_plus(pre, width.id(), height.id()) {
            let path = choose|path: Seq<int>|
                path.len() >= 2 && path[0] == width.id() && path.last() == height.id()
                    && #[trigger] dep_path(pre, path);
            let j = path.len() - 2;
            assert(pre.edge_props(path[j], path[j + 1]));
            let k = choose|k: int| pre.dep_edge_is(k, path[j], height.id());
            assert(pre.dep_edges@[k].alive);
            assert(pre.is_bound(height.id()));
        }
    }
    // the recomputed cache is the product over the final values
    assert(post.is_bound(area.id())) by {
        assert(post.binding_of(area.id()) == pre.binding_of(area.id()));
        assert(post.is_alive(area.id()) == pre.is_alive(area.id()));
    }
    assert(post.accurate_at(area.id())) by {
        assert(!post.is_dirty(area.id()));
    }
    assert(post.the_binding(area.id()) == b) by {
        assert(post.binding_of(area.id()) == pre.binding_of(area.id()));
    }
    assert(post.value_of(area.id()) == crate::binding::eval_spec(b, post.vals()));
    assert(crate::binding::eval_spec(b, post.vals()) == wmul(
        crate::binding::eval_spec(gw, post.vals()),
        crate::binding::eval_spec(gh, post.vals()),
    ));
    assert(0 <= width.id() < post.vals().len() && 0 <= height.id() < post.vals().len()) by {
        assert(post.n() == pre.n());
    }
    assert(crate::binding::eval_spec(gw, post.vals()) == post.vals()[width.id()]);
    assert(crate::binding::eval_spec(gh, post.vals()) == post.vals()[height.id()]);
    assert(post.vals()[width.id()] == post.value_of(width.id()));
    assert(post.vals()[height.id()] == post.value_of(height.id()));
    assert(post.value_of(width.id()) == v);
    assert(post.value_of(height.id()) == pre.value_of(height.id()));
}

/// Binding recomputation, other operand: with `area` bound to the product of
/// `width` (a literal property) and `height`, assigning `height`
/// synchronously updates `area` to the new product and re-evaluates `area`'s
/// binding exactly once.
pub proof fn lemma_product_binding_tracks_height(
    pre: PropertySystem,
    post: PropertySystem,
    width: Property,
    height: Property,
    area: Property,
    v: u64,
)
    requires
        pre.wf(),
        pre.is_alive(height.id()),
        pre.is_bound(area.id()),
        pre.the_binding(area.id()) == Binding::Mul(
            Box::new(Binding::Get(width.id)),
            Box::new(Binding::Get(height.id)),
        ),
        pre.binding_of(width.id()) is None,
        pre.is_alive(width.id()),
        width.id() != height.id(),
        width.id() != area.id(),
        height.id() != area.id(),
        PropertySystem::set_rel(pre, post, height.id(), v),
    ensures
        post.value_of(area.id()) == wmul(pre.value_of(width.id()), v),
        post.evals_of(area.id()) == sat_inc(pre.evals_of(area.id())),
{
    let b = pre.the_binding(area.id());
    let gw = Binding::Get(width.id);
    let gh = Binding::Get(height.id);
    // `area` reads `height`, so it is a dependent and is re-evaluated
    assert(crate::binding::reads_spec(b, pre.vals()) == crate::binding::reads_spec(
        gw,
        pre.vals(),
    ).union(crate::binding::reads_spec(gh, pre.vals())));
    assert(crate::binding::reads_spec(gw, pre.vals()) == Set::empty().insert(width.id()));
    assert(crate::binding::reads_spec(gh, pre.vals()) == Set::empty().insert(height.id()));
    assert(crate::binding::reads_spec(b, pre.vals()).contains(height.id()));
    assert(pre.accurate_at(area.id()));
    assert(pre.edge_props(height.id(), area.id()));
    crate::system::lemma_reach_step(pre, height.id(), height.id(), area.id());
    assert(reaches_plus(pre, height.id(), area.id()));
    // `width` has no binding, so nothing leads into it and it keeps its value
    assert(!reaches_plus(pre, height.id(), width.id())) by {
        if reaches_plus(pre, height.id(), width.id()) {
            let path = choose|path: Seq<int>|
                path.len() >= 2 && path[0] == height.id() && path.last() == width.id()
                    && #[trigger] dep_path(pre, path);
            let j = path.len() - 2;
            assert(pre.edge_props(path[j], path[j + 1]));
            let k = choose|k: int| pre.dep_edge_is(k, path[j], width.id());
            assert(pre.dep_edges@[k].alive);
            assert(pre.is_bound(width.id()));
        }
    }
    // the recomputed cache is the product over the final values
    assert(post.is_bound(area.id())) by {
        assert(post.binding_of(area.id()) == pre.binding_of(area.id()));
        assert(post.is_alive(area.id()) == pre.is_alive(area.id()));
    }
    assert(post.accurate_at(area.id())) by {
        assert(!post.is_dirty(area.id()));
    }
    assert(post.the_binding(area.id()) == b) by {
        assert(post.binding_of(area.id()) == pre.binding_of(area.id()));
    }
    assert(post.value_of(area.id()) == crate::binding::eval_spec(b, post.vals()));
    assert(crate::binding::eval_spec(b, post.vals()) == wmul(
        crate::binding::eval_spec(gw, post.vals()),
        crate::binding::eval_spec(gh, post.vals()),
    ));
    assert(0 <= width.id() < post.vals().len() && 0 <= height.id() < post.vals().len()) by {
        assert(post.n() == pre.n());
    }
    assert(crate::binding::eval_spec(gw, post.vals()) == post.vals()[width.id()]);
    assert(crate::binding::eval_spec(gh, post.vals()) == post.vals()[height.id()]);
    assert(post.vals()[width.id()] == post.value_of(width.id()));
    assert(post.vals()[height.id()] == post.value_of(height.id()));
    assert(post.value_of(height.id()) == v);
    assert(post.value_of(width.id()) == pre.value_of(width.id()));
}

/// Quiescence: a system at rest is fully propagated — every bound property's
/// cached value equals its binding evaluated over the current values. Since
/// every update operation returns a system at rest, the graph is quiescent
/// before any setter returns.
pub proof fn lemma_wf_is_quiescent(s: PropertySystem)
    requires
        s.wf(),
    ensures
        forall|q: int| #[trigger] s.is_bound(q) ==> s.value_of(q)
            == crate::binding::eval_spec(s.the_binding(q), s.vals()),
{
    assert forall|q: int| #[trigger] s.is_bound(q) implies s.value_of(q)
        == crate::binding::eval_spec(s.the_binding(q), s.vals()) by {
        assert(!s.is_dirty(q));
        assert(s.accurate_at(q));
    }
}

/// Diamond graph: with `a` and `b` both bound to read `root` and `c` bound to
/// the sum of `a` and `b`, assigning `root` re-evaluates `c` exactly once —
/// not once per incoming edge — and `c` sees both updated inputs.
pub proof fn lemma_diamond_recomputes_once(
    pre: PropertySystem,
    post: PropertySystem,
    root: Property,
    a: Property,
    b: Property,
    c: Property,
    v: u64,
)
    requires
        pre.wf(),
        pre.is_alive(root.id()),
        pre.is_bound(a.id()),
        pre.is_bound(b.id()),
        pre.is_bound(c.id()),
        pre.the_binding(a.id()) == Binding::Get(root.id),
        pre.the_binding(b.id()) == Binding::Get(root.id),
        pre.the_binding(c.id()) == Binding::Add(
            Box::new(Binding::Get(a.id)),
            Box::new(Binding::Get(b.id)),
        ),
        root.id() != a.id() && root.id() != b.id() && root.id() != c.id(),
        a.id() != b.id() && a.id() != c.id() && b.id() != c.id(),
        PropertySystem::set_rel(pre, post, root.id(), v),
    ensures
        post.evals_of(a.id()) == sat_inc(pre.evals_of(a.id())),
        post.evals_of(b.id()) == sat_inc(pre.evals_of(b.id())),
        post.evals_of(c.id()) == sat_inc(pre.evals_of(c.id())),
        post.value_of(c.id()) == wadd(v, v),
{
    let ga = Binding::Get(a.id);
    let gb = Binding::Get(b.id);
    // root reaches a, b and c
    assert(crate::binding::reads_spec(pre.the_binding(a.id()), pre.vals()) == Set::empty().insert(
        root.id(),
    ));
    assert(pre.accurate_at(a.id()));
    assert(pre.edge_props(root.id(), a.id()));
    crate::system::lemma_reach_step(pre, root.id(), root.id(), a.id());
    assert(crate::binding::reads_spec(pre.the_binding(b.id()), pre.vals()) == Set::empty().insert(
        root.id(),
    ));
    assert(pre.accurate_at(b.id()));
    assert(pre.edge_props(root.id(), b.id()));
    crate::system::lemma_reach_step(pre, root.id(), root.id(), b.id());
    assert(crate::binding::reads_spec(pre.the_binding(c.id()), pre.vals())
        == crate::binding::reads_spec(ga, pre.vals()).union(
        crate::binding::reads_spec(gb, pre.vals()),
    ));
    assert(crate::binding::reads_spec(ga, pre.vals()) == Set::empty().insert(a.id()));
    assert(crate::binding::reads_spec(gb, pre.vals()) == Set::empty().insert(b.id()));
    assert(crate::binding::reads_spec(pre.the_binding(c.id()), pre.vals()).contains(a.id()));
    assert(pre.accurate_at(c.id()));
    assert(pre.edge_props(a.id(), c.id()));
    crate::system::lemma_reach_step(pre, root.id(), a.id(), c.id());
    assert(reaches_plus(pre, root.id(), c.id()));
    // the final caches follow from accuracy over the final values
    assert(post.is_bound(a.id())) by {
        assert(post.binding_of(a.id()) == pre.binding_of(a.id()));
        assert(post.is_alive(a.id()) == pre.is_alive(a.id()));
    }
    assert(post.is_bound(b.id())) by {
        assert(post.binding_of(b.id()) == pre.binding_of(b.id()));
        assert(post.is_alive(b.id()) == pre.is_alive(b.id()));
    }
    assert(post.is_bound(c.id())) by {
        assert(post.binding_of(c.id()) == pre.binding_of(c.id()));
        assert(post.is_alive(c.id()) == pre.is_alive(c.id()));
    }
    assert(post.accurate_at(a.id()) && post.accurate_at(b.id()) && post.accurate_at(c.id())) by {
        assert(!post.is_dirty(a.id()) && !post.is_dirty(b.id()) && !post.is_dirty(c.id()));
    }
    assert(post.the_binding(a.id()) == pre.the_binding(a.id())) by {
        assert(post.binding_of(a.id()) == pre.binding_of(a.id()));
    }
    assert(post.the_binding(b.id()) == pre.the_binding(b.id())) by {
        assert(post.binding_of(b.id()) == pre.binding_of(b.id()));
    }
    assert(post.the_binding(c.id()) == pre.the_binding(c.id())) by {
        assert(post.binding_of(c.id()) == pre.binding_of(c.id()));
    }
    assert(post.n() == pre.n());
    assert(0 <= root.id() < post.vals().len());
    assert(0 <= a.id() < post.vals().len() && 0 <= b.id() < post.vals().len());
    assert(post.vals()[root.id()] == post.value_of(root.id()));
    assert(post.value_of(root.id()) == v);
    assert(post.value_of(a.id()) == crate::binding::eval_spec(
        Binding::Get(root.id),
        post.vals(),
    ));
    assert(crate::binding::eval_spec(Binding::Get(root.id), post.vals()) == post.vals()[root.id()]);
    assert(post.value_of(a.id()) == v);
    assert(post.vals()[a.id()] == v);
    assert(post.value_of(b.id()) == v);
    assert(post.vals()[b.id()] == v);
    assert(post.value_of(c.id()) == crate::binding::eval_spec(
        pre.the_binding(c.id()),
        post.vals(),
    ));
    assert(crate::binding::eval_spec(pre.the_binding(c.id()), post.vals()) == wadd(
        crate::binding::eval_spec(ga, post.vals()),
        crate::binding::eval_spec(gb, post.vals()),
    ));
    assert(crate::binding::eval_spec(ga, post.vals()) == post.vals()[a.id()]);
    assert(crate::binding::eval_spec(gb, post.vals()) == post.vals()[b.id()]);
}

/// Re-binding clears stale edges: a conditional binding that currently takes
/// its first branch depends only on that branch's source; assigning the
/// untaken branch's source neither re-evaluates the binding nor changes its
/// value. (Stated for a graph whose only binding is the conditional one.)
pub proof fn lemma_untaken_branch_is_no_dependency(
    pre: PropertySystem,
    post: PropertySystem,
    flag: Property,
    x: Property,
    y: Property,
    c: Property,
    v: u64,
)
    requires
        pre.wf(),
        pre.is_bound(c.id()),
        pre.the_binding(c.id()) == Binding::Cond(
            Box::new(Binding::Get(flag.id)),
            Box::new(Binding::Get(x.id)),
            Box::new(Binding::Get(y.id)),
        ),
        pre.value_of(flag.id()) != 0,
        pre.is_alive(y.id()),
        flag.id() != y.id() && x.id() != y.id() && c.id() != y.id(),
        forall|q: int| #[trigger] pre.is_bound(q) ==> q == c.id(),
        PropertySystem::set_rel(pre, post, y.id(), v),
    ensures
        post.evals_of(c.id()) == pre.evals_of(c.id()),
        post.value_of(c.id()) == pre.value_of(c.id()),
{
    let b = pre.the_binding(c.id());
    let gflag = Binding::Get(flag.id);
    let gx = Binding::Get(x.id);
    // the conditional mentions `flag`, which is therefore a real slot
    assert(crate::binding::gets_spec(b) == crate::binding::gets_spec(gflag).union(
        crate::binding::gets_spec(gx).union(crate::binding::gets_spec(Binding::Get(y.id))),
    ));
    assert(crate::binding::gets_spec(gflag) == Set::empty().insert(flag.id()));
    assert(crate::binding::gets_spec(b).contains(flag.id()));
    assert(crate::binding::valid_binding(b, pre.n()));
    assert(0 <= flag.id() < pre.vals().len());
    // the evaluation takes the first branch, so its read set avoids `y`
    assert(crate::binding::eval_spec(gflag, pre.vals()) == pre.vals()[flag.id()]);
    assert(pre.vals()[flag.id()] == pre.value_of(flag.id()));
    assert(crate::binding::reads_spec(b, pre.vals()) == crate::binding::reads_spec(
        gflag,
        pre.vals(),
    ).union(crate::binding::reads_spec(gx, pre.vals())));
    assert(crate::binding::reads_spec(gflag, pre.vals()) == Set::empty().insert(flag.id()));
    assert(crate::binding::reads_spec(gx, pre.vals()) == Set::empty().insert(x.id()));
    assert(!crate::binding::reads_spec(b, pre.vals()).contains(y.id()));
    // hence nothing leads from `y` anywhere: its one potential reader reads
    // only the taken branch
    assert(!reaches_plus(pre, y.id(), c.id())) by {
        if reaches_plus(pre, y.id(), c.id()) {
            let path = choose|path: Seq<int>|
                path.len() >= 2 && path[0] == y.id() && path.last() == c.id() && #[trigger] dep_path(
                    pre,
                    path,
                );
            assert(pre.edge_props(path[0int], path[0int + 1]));
            let r1 = path[0int + 1];
            let k = choose|k: int| pre.dep_edge_is(k, y.id(), r1);
            assert(pre.dep_edges@[k].alive);
            assert(pre.is_bound(r1));
            assert(r1 == c.id());
            assert(pre.accurate_at(c.id()));
            assert(crate::binding::reads_spec(b, pre.vals()).contains(y.id()));
        }
    }
}

/// Listener re-arming: a change listener subscribed to a property is
/// notified by every assignment of that property, not only the first one.
/// (Stated for a listener watching exactly one property, with counters away
/// from saturation.)
pub proof fn lemma_listener_fires_every_change(
    s0: PropertySystem,
    s1: PropertySystem,
    s2: PropertySystem,
    p: Property,
    e: ChangeEvent,
    v1: u64,
    v2: u64,
)
    requires
        s0.wf(),
        s0.valid_listener(e.id()),
        s0.edge_listener(p.id(), e.id()),
        forall|q: int| q != p.id() ==> !(#[trigger] s0.edge_listener(q, e.id())),
        s0.fires_of(e.id()) < u64::MAX - 1,
        PropertySystem::set_rel(s0, s1, p.id(), v1),
        PropertySystem::set_rel(s1, s2, p.id(), v2),
    ensures
        s1.fires_of(e.id()) == s0.fires_of(e.id()) + 1,
        s2.fires_of(e.id()) == s0.fires_of(e.id()) + 2,
{
    assert(set_hits(s0, p.id(), e.id()) == 1) by {
        assert forall|q: int| 0 <= q < s0.props@.len() implies #[trigger] set_hits_pred(
            s0,
            p.id(),
            e.id(),
        )(q) == (q == p.id() && true) by {
            if q != p.id() {
                assert(!s0.edge_listener(q, e.id()));
            } else {
                assert(s0.edge_listener(p.id(), e.id()));
            }
        }
        assert(0 <= p.id() < s0.props@.len()) by {
            let k = choose|k: int| s0.listen_edge_is(k, p.id(), e.id());
            assert(s0.listen_edges@[k].alive);
            assert(s0.is_alive(p.id()));
        }
        lemma_count_true_single(set_hits_pred(s0, p.id(), e.id()), s0.props@.len(), p.id(), true);
    }
    assert(s1.fires_of(e.id()) == sat_add(s0.fires_of(e.id()), 1));
    assert(sat_add(s0.fires_of(e.id()), 0) == s0.fires_of(e.id()));
    assert(s1.fires_of(e.id()) == s0.fires_of(e.id()) + 1);
    // the subscription survives the first notification, so the second
    // assignment notifies again
    assert(s1.edge_listener(p.id(), e.id()));
    assert(set_hits(s1, p.id(), e.id()) == 1) by {
        assert forall|q: int| 0 <= q < s1.props@.len() implies #[trigger] set_hits_pred(
            s1,
            p.id(),
            e.id(),
        )(q) == (q == p.id() && true) by {
            if q != p.id() {
                assert(s1.edge_listener(q, e.id()) == s0.edge_listener(q, e.id()));
                assert(!s0.edge_listener(q, e.id()));
            }
        }
        assert(0 <= p.id() < s1.props@.len()) by {
            let k = choose|k: int| s0.listen_edge_is(k, p.id(), e.id());
            assert(s0.listen_edges@[k].alive);
            assert(s0.is_alive(p.id()));
        }
        lemma_count_true_single(set_hits_pred(s1, p.id(), e.id()), s1.props@.len(), p.id(), true);
    }
    assert(s1.valid_listener(e.id()));
    assert(s2.fires_of(e.id()) == sat_add(s1.fires_of(e.id()), 1));
    assert(sat_add(s1.fires_of(e.id()), 0) == s1.fires_of(e.id()));
}

/// Removing a binding stops recomputation: after a property is assigned a
/// literal, later assignments to any other property leave it untouched — its
/// value is static from then on.
pub proof fn lemma_literal_stays_static(
    s0: PropertySystem,
    s1: PropertySystem,
    s2: PropertySystem,
    p: Property,
    x: Property,
    v: u64,
    v2: u64,
)
    requires
        PropertySystem::set_rel(s0, s1, p.id(), v),
        x.id() != p.id(),
        PropertySystem::set_rel(s1, s2, x.id(), v2),
        s0.valid_prop(p.id()),
    ensures
        s2.value_of(p.id()) == v,
        s2.binding_of(p.id()) is None,
        s2.evals_of(p.id()) == 0,
{
    // no edge leads into the now-literal property, so no change reaches it
    assert(!reaches_plus(s1, x.id(), p.id())) by {
        if reaches_plus(s1, x.id(), p.id()) {
            let path = choose|path: Seq<int>|
                path.len() >= 2 && path[0] == x.id() && path.last() == p.id() && #[trigger] dep_path(
                    s1,
                    path,
                );
            let j = path.len() - 2;
            assert(s1.edge_props(path[j], path[j + 1]));
            assert(!s1.edge_props(path[j], p.id()));
        }
    }
    assert(s1.valid_prop(p.id()));
}

/// Teardown: destroying a property leaves no stale edge to it, in either
/// direction, and every other property keeps its value, its binding and its
/// liveness; the remaining graph stays well-formed and fully usable.
pub proof fn lemma_teardown_clears_edges(pre: PropertySystem, post: PropertySystem, p: Property)
    requires
        PropertySystem::destroy_rel(pre, post, p.id()),
    ensures
        post.wf(),
        !post.is_alive(p.id()),
        forall|q: int| !(#[trigger] post.edge_props(p.id(), q)),
        forall|q: int| !(#[trigger] post.edge_props(q, p.id())),
        forall|l: int| !(#[trigger] post.edge_listener(p.id(), l)),
        forall|q: int| pre.valid_prop(q) ==> #[trigger] post.value_of(q) == pre.value_of(q),
        forall|q: int| pre.valid_prop(q) && q != p.id() ==> #[trigger] post.binding_of(q)
            == pre.binding_of(q),
{
}

} // verus!
