//! Concrete scenarios for the engine's guarantees: round trips, synchronous
//! recomputation, the diamond graph, conditional dependencies, listener
//! re-arming, un-binding, teardown, and the wrapping arithmetic.

use rsml::{Binding, Property, PropertySystem, WeakProperty};

#[test]
fn round_trip() {
    let mut sys = PropertySystem::new();
    let p = Property::new(&mut sys);
    assert_eq!(p.get(&sys), 0);
    p.set(&mut sys, 7);
    assert_eq!(p.get(&sys), 7);
    p.set(&mut sys, u64::MAX);
    assert_eq!(p.get(&sys), u64::MAX);
    // assigning a literal over a binding also round-trips
    let q = Property::new(&mut sys);
    q.set_binding(&mut sys, Binding::read(p));
    q.set(&mut sys, 3);
    assert_eq!(q.get(&sys), 3);
}

#[test]
fn area_scenario() {
    let mut sys = PropertySystem::new();
    let width = Property::new(&mut sys);
    let height = Property::new(&mut sys);
    width.set(&mut sys, 2);
    let area = Property::from_binding(
        &mut sys,
        Binding::times(Binding::read(width), Binding::read(height)),
    );
    height.set(&mut sys, 4);
    assert_eq!(area.get(&sys), 8);
    height.set(&mut sys, 8);
    assert_eq!(area.get(&sys), 16);
    width.set(&mut sys, 10);
    assert_eq!(area.get(&sys), 80);
}

#[test]
fn diamond_recomputes_once() {
    let mut sys = PropertySystem::new();
    let root = Property::new(&mut sys);
    root.set(&mut sys, 1);
    let a = Property::from_binding(&mut sys, Binding::read(root));
    let b = Property::from_binding(&mut sys, Binding::read(root));
    let c = Property::from_binding(
        &mut sys,
        Binding::plus(Binding::read(a), Binding::read(b)),
    );
    assert_eq!(c.get(&sys), 2);
    assert_eq!(c.recomputations(&sys), 1);
    root.set(&mut sys, 5);
    assert_eq!(a.get(&sys), 5);
    assert_eq!(b.get(&sys), 5);
    assert_eq!(c.get(&sys), 10);
    // one recomputation of c, not one per incoming edge
    assert_eq!(a.recomputations(&sys), 2);
    assert_eq!(b.recomputations(&sys), 2);
    assert_eq!(c.recomputations(&sys), 2);
}

#[test]
fn untaken_branch_is_no_dependency() {
    let mut sys = PropertySystem::new();
    let flag = Property::new(&mut sys);
    let x = Property::new(&mut sys);
    let y = Property::new(&mut sys);
    flag.set(&mut sys, 1);
    x.set(&mut sys, 10);
    y.set(&mut sys, 20);
    let c = Property::from_binding(
        &mut sys,
        Binding::if_nonzero(Binding::read(flag), Binding::read(x), Binding::read(y)),
    );
    assert_eq!(c.get(&sys), 10);
    assert_eq!(c.recomputations(&sys), 1);
    // the untaken branch's source is no dependency: no recomputation
    y.set(&mut sys, 21);
    assert_eq!(c.recomputations(&sys), 1);
    assert_eq!(c.get(&sys), 10);
    // flipping the flag re-binds the edges to the other branch
    flag.set(&mut sys, 0);
    assert_eq!(c.get(&sys), 21);
    assert_eq!(c.recomputations(&sys), 2);
    x.set(&mut sys, 11);
    assert_eq!(c.recomputations(&sys), 2);
    y.set(&mut sys, 22);
    assert_eq!(c.get(&sys), 22);
    assert_eq!(c.recomputations(&sys), 3);
}

#[test]
fn listener_rearms_on_every_change() {
    let mut sys = PropertySystem::new();
    let p = Property::new(&mut sys);
    let e = p.on_notify(&mut sys);
    assert_eq!(e.count(&sys), 0);
    p.set(&mut sys, 1);
    p.set(&mut sys, 2);
    p.set(&mut sys, 2);
    p.set(&mut sys, 3);
    // one notification per assignment, also when the value repeats
    assert_eq!(e.count(&sys), 4);
}

#[test]
fn listener_sees_recomputations() {
    let mut sys = PropertySystem::new();
    let src = Property::new(&mut sys);
    let dst = Property::from_binding(&mut sys, Binding::read(src));
    let e = dst.on_notify(&mut sys);
    src.set(&mut sys, 1);
    assert_eq!(e.count(&sys), 1);
    src.set(&mut sys, 2);
    assert_eq!(e.count(&sys), 2);
}

#[test]
fn listening_twice_is_one_subscription() {
    let mut sys = PropertySystem::new();
    let p = Property::new(&mut sys);
    let e = p.on_notify(&mut sys);
    e.listen(&mut sys, p);
    p.set(&mut sys, 9);
    assert_eq!(e.count(&sys), 1);
}

#[test]
fn unbinding_makes_value_static() {
    let mut sys = PropertySystem::new();
    let src = Property::new(&mut sys);
    let dst = Property::from_binding(&mut sys, Binding::read(src));
    src.set(&mut sys, 5);
    assert_eq!(dst.get(&sys), 5);
    dst.set(&mut sys, 100);
    src.set(&mut sys, 6);
    assert_eq!(dst.get(&sys), 100);
    assert_eq!(dst.recomputations(&sys), 0);
}

#[test]
fn teardown_leaves_dependents_usable() {
    let mut sys = PropertySystem::new();
    let a = Property::new(&mut sys);
    let b = Property::new(&mut sys);
    a.set(&mut sys, 3);
    b.set(&mut sys, 4);
    let c = Property::from_binding(
        &mut sys,
        Binding::plus(Binding::read(a), Binding::read(b)),
    );
    assert_eq!(c.get(&sys), 7);
    a.destroy(&mut sys);
    // the dependent keeps its last value and carries no stale edge
    assert_eq!(c.get(&sys), 7);
    // a change of the still-live source recomputes the dependent, which reads
    // the destroyed property's last value
    b.set(&mut sys, 10);
    assert_eq!(c.get(&sys), 13);
}

#[test]
fn weak_reference_outlives_destruction() {
    let mut sys = PropertySystem::new();
    let p = Property::new(&mut sys);
    p.set(&mut sys, 42);
    let w: WeakProperty = p.as_weak();
    assert_eq!(w.get(&sys), Some(42));
    p.destroy(&mut sys);
    assert_eq!(w.get(&sys), None);
    // the strong handle still reads the frozen value
    assert_eq!(p.get(&sys), 42);
}

#[test]
fn arithmetic_wraps() {
    let mut sys = PropertySystem::new();
    let a = Property::new(&mut sys);
    a.set(&mut sys, u64::MAX);
    let plus_one = Property::from_binding(
        &mut sys,
        Binding::plus(Binding::read(a), Binding::lit(1)),
    );
    assert_eq!(plus_one.get(&sys), 0);
    let minus = Property::from_binding(
        &mut sys,
        Binding::minus(Binding::lit(0), Binding::lit(1)),
    );
    assert_eq!(minus.get(&sys), u64::MAX);
    let product = Property::from_binding(
        &mut sys,
        Binding::times(Binding::read(a), Binding::lit(2)),
    );
    assert_eq!(product.get(&sys), u64::MAX - 1);
}

#[test]
fn chained_bindings_propagate_in_order() {
    let mut sys = PropertySystem::new();
    let base = Property::new(&mut sys);
    base.set(&mut sys, 1);
    let twice = Property::from_binding(
        &mut sys,
        Binding::times(Binding::read(base), Binding::lit(2)),
    );
    let plus_base = Property::from_binding(
        &mut sys,
        Binding::plus(Binding::read(twice), Binding::read(base)),
    );
    assert_eq!(plus_base.get(&sys), 3);
    base.set(&mut sys, 10);
    // the downstream binding sees the new values of everything it reads
    assert_eq!(twice.get(&sys), 20);
    assert_eq!(plus_base.get(&sys), 30);
    assert_eq!(plus_base.recomputations(&sys), 2);
}
