use vstd::prelude::*;

verus! {

/// A service implementation that knows its own registration: the interface
/// it serves, its name, and the interfaces it needs built first.
pub trait Component {
    /// Identity of the interface this component implements.
    const INTERFACE: u64;

    /// Human-readable name of the implementation.
    const NAME: &'static str;

    /// Interfaces to resolve, in order, before this component is built.
    const DEPENDENCIES: &'static [u64];
}

/// One registration: an implementation bound to an interface, with the
/// interfaces that its build needs, in declaration order.
#[derive(Debug, Clone)]
pub struct RegisteredType {
    pub component: String,
    pub interface: u64,
    pub dependencies: Vec<u64>,
}

impl RegisteredType {
    pub fn new(component: String, interface: u64, dependencies: Vec<u64>) -> (r: Self)
        ensures
            r.component@ == component@,
            r.interface == interface,
            r.dependencies@ == dependencies@,
    {
        RegisteredType { component, interface, dependencies }
    }

    /// The name and dependency list, as stored in a registry's view.
    pub open spec fn entry(self) -> (Seq<char>, Seq<u64>) {
        (self.component@, self.dependencies@)
    }
}

} // verus!
