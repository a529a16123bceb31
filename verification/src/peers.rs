use vstd::prelude::*;

verus! {

/// An early form of a peer record: a display identifier and a textual
/// address, kept for the snapshot tooling.
#[derive(Debug)]
pub struct Peer {
    pub id: String,
    pub addr: String,
}

impl Peer {
    pub fn new(id: String, addr: String) -> (r: Peer)
        ensures
            r.id@ == id@,
            r.addr@ == addr@,
    {
        Peer { id, addr }
    }
}

} // verus!
