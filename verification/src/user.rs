use vstd::prelude::*;

verus! {

/// An opaque handle identifying the originator of an order or trade.
/// It has value equality and no behaviour beyond carrying its token.
#[derive(Clone, Copy, Debug, PartialEq, Eq)]
pub struct User {
    pub guid: &'static str,
}

impl User {
    /// Constructs an identity from a caller-supplied token.
    pub fn new(guid: &'static str) -> (u: User)
        ensures
            u.guid == guid,
    {
        User { guid }
    }
}

} // verus!
