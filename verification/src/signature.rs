use vstd::prelude::*;

verus! {

/// What signature checking can report: the signature does not match.
#[derive(Debug)]
pub enum MyError {
    BadSignature,
}

} // verus!
