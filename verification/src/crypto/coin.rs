//! Coins: the commitments to spendable outputs.

use crate::crypto::repr::same_bytes;
use vstd::prelude::*;
use vstd::std_specs::cmp::PartialEqSpecImpl;

verus! {

/// The commitment to one spendable output. Its view is its 32 bytes.
#[derive(Clone, Copy, Debug)]
pub struct Coin {
    pub repr: [u8; 32],
}

impl View for Coin {
    type V = Seq<u8>;

    open spec fn view(&self) -> Seq<u8> {
        self.repr@
    }
}

impl Coin {
    /// The coin with the representation `repr`.
    pub fn new(repr: [u8; 32]) -> (r: Self)
        ensures
            r.repr == repr,
    {
        Coin { repr }
    }
}

impl PartialEq for Coin {
    fn eq(&self, other: &Self) -> (r: bool) {
        same_bytes(&self.repr, &other.repr)
    }
}

impl Eq for Coin {

}

impl PartialEqSpecImpl for Coin {
    open spec fn obeys_eq_spec() -> bool {
        true
    }

    open spec fn eq_spec(&self, other: &Self) -> bool {
        self.repr@ == other.repr@
    }
}

} // verus!
