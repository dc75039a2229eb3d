//! Nullifiers: the marks that spent outputs leave.

use crate::crypto::repr::same_bytes;
use vstd::prelude::*;
use vstd::std_specs::cmp::PartialEqSpecImpl;

verus! {

/// The mark of one spent output: it tells that an output was spent, not which.
/// Its view is its 32 bytes.
#[derive(Clone, Copy, Debug)]
pub struct Nullifier {
    pub repr: [u8; 32],
}

impl View for Nullifier {
    type V = Seq<u8>;

    open spec fn view(&self) -> Seq<u8> {
        self.repr@
    }
}

impl Nullifier {
    /// The nullifier with the representation `repr`.
    pub fn new(repr: [u8; 32]) -> (r: Self)
        ensures
            r.repr == repr,
    {
        Nullifier { repr }
    }
}

impl PartialEq for Nullifier {
    fn eq(&self, other: &Self) -> (r: bool) {
        same_bytes(&self.repr, &other.repr)
    }
}

impl Eq for Nullifier {

}

impl PartialEqSpecImpl for Nullifier {
    open spec fn obeys_eq_spec() -> bool {
        true
    }

    open spec fn eq_spec(&self, other: &Self) -> bool {
        self.repr@ == other.repr@
    }
}

} // verus!
