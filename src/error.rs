use vstd::prelude::*;

verus! {

/// What can go wrong while building a container or reading from it.
#[derive(Debug, Clone, PartialEq, Eq)]
pub enum Error {
    /// `interface` has no registration; `dependent` is the registration that
    /// asked for it, if any.
    UnregisteredInterface { interface: u64, dependent: Option<u64> },
    /// Resolution came back to an interface that was still being built. The
    /// path lists the interfaces of the cycle: each depends on the next, and
    /// the last on the first.
    CircularDependency(Vec<u64>),
    /// A handle was read as `expected`, but the instance behind it serves
    /// `found`.
    WrongType { expected: u64, found: u64 },
}

} // verus!
