//! The property engine driven through its public API: assignments, bindings,
//! change listeners and signals.

use rsml::{Binding, ChangeEvent, Property, PropertySystem, Signal};

#[test]
fn it_works() {
    let mut sys = PropertySystem::new();
    let width = Property::new(&mut sys);
    let height = Property::new(&mut sys);
    width.set(&mut sys, 2);
    let area = Property::from_binding(
        &mut sys,
        Binding::times(Binding::read(width), Binding::read(height)),
    );
    height.set(&mut sys, 4);
    assert_eq!(area.value(&sys), 4 * 2);
}

#[test]
fn test_notify() {
    let mut sys = PropertySystem::new();
    let bar = Property::new(&mut sys);
    bar.set(&mut sys, 2);
    let foo = Property::new(&mut sys);
    foo.set(&mut sys, 2);
    let x = foo.on_notify(&mut sys);
    foo.set(&mut sys, 3);
    assert_eq!(x.count(&sys), 1);
    foo.set(&mut sys, 45);
    assert_eq!(x.count(&sys), 2);
    foo.set_binding(&mut sys, Binding::read(bar));
    assert_eq!(x.count(&sys), 3);
    bar.set(&mut sys, 8);
    assert_eq!(x.count(&sys), 4);
}

#[test]
fn properties_it_works() {
    let mut sys = PropertySystem::new();
    let width = Property::new(&mut sys);
    let height = Property::new(&mut sys);
    width.set(&mut sys, 2);
    let area = Property::from_binding(
        &mut sys,
        Binding::times(Binding::read(width), Binding::read(height)),
    );
    height.set(&mut sys, 4);
    assert_eq!(area.value(&sys), 4 * 2);
}

#[test]
fn properties2_it_works() {
    let mut sys = PropertySystem::new();
    let width = Property::new(&mut sys);
    let height = Property::new(&mut sys);
    let area = Property::new(&mut sys);
    width.set(&mut sys, 2);
    let f = Binding::times(Binding::read(width), Binding::read(height));
    area.set_binding(&mut sys, f);
    height.set(&mut sys, 4);
    assert_eq!(area.get(&sys), 4 * 2);
}

#[test]
fn properties3_test_property() {
    let mut sys = PropertySystem::new();
    let width = Property::new(&mut sys);
    let height = Property::new(&mut sys);
    let area = Property::new(&mut sys);
    height.set(&mut sys, 12);
    width.set(&mut sys, 8);
    area.set_binding(
        &mut sys,
        Binding::times(Binding::read(height), Binding::read(width)),
    );
    assert_eq!(area.get(&sys), 12 * 8);
    width.set(&mut sys, 4);
    assert_eq!(area.get(&sys), 12 * 4);
    area.set_binding_owned(
        &mut sys,
        Binding::plus(Binding::read(height), Binding::read(width)),
    );
    assert_eq!(area.get(&sys), 12 + 4);
    height.set(&mut sys, 8);
    assert_eq!(area.get(&sys), 8 + 4);
}

#[test]
fn properties3_test_notify() {
    let mut sys = PropertySystem::new();
    let bar = Property::new(&mut sys);
    let foo = Property::new(&mut sys);
    bar.set(&mut sys, 2);
    foo.set(&mut sys, 2);
    let x = ChangeEvent::new(&mut sys);
    x.listen(&mut sys, foo);
    foo.set(&mut sys, 3);
    assert_eq!(x.count(&sys), 1);
    foo.set(&mut sys, 45);
    assert_eq!(x.count(&sys), 2);
    foo.set_binding_owned(&mut sys, Binding::read(bar));
    assert_eq!(x.count(&sys), 3);
    bar.set(&mut sys, 8);
    assert_eq!(x.count(&sys), 4);
}

#[test]
fn properties_impl_test_property() {
    let mut sys = PropertySystem::new();
    let width = Property::new(&mut sys);
    let height = Property::new(&mut sys);
    let area = Property::new(&mut sys);
    height.set(&mut sys, 12);
    width.set(&mut sys, 8);
    area.set_binding(
        &mut sys,
        Binding::times(Binding::read(height), Binding::read(width)),
    );
    assert_eq!(area.get(&sys), 12 * 8);
    width.set(&mut sys, 4);
    assert_eq!(area.get(&sys), 12 * 4);
    area.set_binding_owned(
        &mut sys,
        Binding::plus(Binding::read(height), Binding::read(width)),
    );
    assert_eq!(area.get(&sys), 12 + 4);
    height.set(&mut sys, 8);
    assert_eq!(area.get(&sys), 8 + 4);
}

#[test]
fn properties_impl_test_notify() {
    let mut sys = PropertySystem::new();
    let bar = Property::new(&mut sys);
    let foo = Property::new(&mut sys);
    bar.set(&mut sys, 2);
    foo.set(&mut sys, 2);
    let x = ChangeEvent::new(&mut sys);
    x.listen(&mut sys, foo);
    foo.set(&mut sys, 3);
    assert_eq!(x.count(&sys), 1);
    foo.set(&mut sys, 45);
    assert_eq!(x.count(&sys), 2);
    foo.set_binding_owned(&mut sys, Binding::read(bar));
    assert_eq!(x.count(&sys), 3);
    bar.set(&mut sys, 8);
    assert_eq!(x.count(&sys), 4);
}

#[test]
fn test_rsml() {
    // a rectangle whose area is bound to the product of its sides
    let mut sys = PropertySystem::new();
    let width = Property::new(&mut sys);
    width.set(&mut sys, 2);
    let height = Property::new(&mut sys);
    let area = Property::from_binding(
        &mut sys,
        Binding::times(Binding::read(width), Binding::read(height)),
    );
    height.set(&mut sys, 4);
    assert_eq!(area.value(&sys), 4 * 2);
    height.set(&mut sys, 8);
    assert_eq!(area.value(&sys), 8 * 2);
}

#[test]
fn test_rsml_init() {
    // as test_rsml, but the height is itself bound: three times the width
    let mut sys = PropertySystem::new();
    let width = Property::new(&mut sys);
    width.set(&mut sys, 2);
    let height = Property::new(&mut sys);
    let area = Property::from_binding(
        &mut sys,
        Binding::times(Binding::read(width), Binding::read(height)),
    );
    height.set_binding(
        &mut sys,
        Binding::times(Binding::read(width), Binding::lit(3)),
    );
    assert_eq!(area.value(&sys), 3 * 2 * 2);
    width.set(&mut sys, 8);
    assert_eq!(area.value(&sys), 3 * 8 * 8);
}

#[test]
fn signal_emit_runs_all_callbacks() {
    let mut sig = Signal::new();
    let first = sig.set_binding();
    let second = sig.set_binding();
    sig.emit();
    assert_eq!(sig.count(first), 1);
    assert_eq!(sig.count(second), 1);
    sig.emit();
    assert_eq!(sig.count(first), 2);
    assert_eq!(sig.count(second), 2);
}

#[test]
fn signal_default_is_empty() {
    let sig = Signal::default();
    let mut sig2 = sig;
    let i = sig2.set_binding();
    assert_eq!(i, 0);
    assert_eq!(sig2.count(i), 0);
}
