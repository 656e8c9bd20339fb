//! A reactive property engine: value cells (`Property`) whose contents are
//! either literals or bindings (computations over other properties), with
//! automatic, synchronous re-evaluation of every dependent binding whenever an
//! upstream property changes.
//!
//! The dependency graph lives in a [`PropertySystem`] arena: properties,
//! change listeners and dependency edges are all slots addressed by stable
//! integer handles, so the graph needs no aliased pointers and every
//! operation can be verified against a mathematical model of the system.

pub mod arith;
pub mod binding;
pub mod laws;
pub mod properties;
pub mod signal;
pub mod system;

pub use arith::{wadd, wmul, wsub};
pub use binding::{Binding, BindingStorage};
pub use properties::{ChangeEvent, Property, WeakProperty};
pub use signal::Signal;
pub use system::PropertySystem;
