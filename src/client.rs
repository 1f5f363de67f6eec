//! Identities of the clients whose requests may be throttled.
use vstd::prelude::*;

verus! {

#[derive(Debug, Clone, PartialEq, Eq, Hash)]
pub struct ClientId(pub String);

impl View for ClientId {
    type V = Seq<char>;

    open spec fn view(&self) -> Seq<char> {
        self.0@
    }
}

impl ClientId {
    pub fn new(id: &str) -> (r: Self)
        ensures
            r@ == id@,
    {
        ClientId(id.to_owned())
    }
}

} // verus!
