use vstd::prelude::*;

verus! {

/// An opaque, comparable, copyable token standing for a distinct
/// authenticated caller (for example a public-key-derived principal).
/// The registry never creates or destroys identities; each call is handed
/// one by the dispatcher. The zero token is reserved for the anonymous
/// caller, which no authenticated operation may accept.
#[derive(Clone, Copy, PartialEq, Eq, Hash, Debug, Structural)]
pub struct Identity {
    pub id: u128,
}

impl Identity {
    /// The reserved token for an unauthenticated caller.
    pub open spec fn spec_is_anonymous(self) -> bool {
        self.id == 0
    }

    #[verifier::when_used_as_spec(spec_is_anonymous)]
    pub fn is_anonymous(self) -> (r: bool)
        ensures
            r == self.spec_is_anonymous(),
    {
        self.id == 0
    }

    /// The anonymous sentinel itself.
    pub fn anonymous() -> (r: Identity)
        ensures
            r.spec_is_anonymous(),
    {
        Identity { id: 0 }
    }
}

} // verus!
