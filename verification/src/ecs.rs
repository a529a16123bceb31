use vstd::prelude::*;

verus! {

/// A change that the registry reports to its observers, naming the entity by
/// its stable identifier.
#[derive(Clone, Copy, Debug, PartialEq, Eq, Structural)]
pub enum NodeEvent {
    Discovered(u64),
    Modified(u64),
    Removed(u64),
}

/// A record that can be indexed by a key of its own choosing.
pub trait Node<T> {
    fn index(&self) -> T;
}

} // verus!
