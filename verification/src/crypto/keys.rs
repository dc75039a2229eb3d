//! Keys as the state engine holds them: canonical encodings, 32 bytes each.

use crate::crypto::repr::same_bytes;
use vstd::prelude::*;
use vstd::std_specs::cmp::PartialEqSpecImpl;

verus! {

/// A public key: the encoding of a point of the curve's prime-order subgroup.
/// Its view is its 32 bytes.
#[derive(Clone, Copy, Debug)]
pub struct PublicKey {
    pub repr: [u8; 32],
}

impl View for PublicKey {
    type V = Seq<u8>;

    open spec fn view(&self) -> Seq<u8> {
        self.repr@
    }
}

impl PublicKey {
    /// The public key with the encoding `repr`.
    pub fn new(repr: [u8; 32]) -> (r: Self)
        ensures
            r.repr == repr,
    {
        PublicKey { repr }
    }
}

impl PartialEq for PublicKey {
    fn eq(&self, other: &Self) -> (r: bool) {
        same_bytes(&self.repr, &other.repr)
    }
}

impl Eq for PublicKey {

}

impl PartialEqSpecImpl for PublicKey {
    open spec fn obeys_eq_spec() -> bool {
        true
    }

    open spec fn eq_spec(&self, other: &Self) -> bool {
        self.repr@ == other.repr@
    }
}

/// A spending secret: the encoding of a scalar. Its view is its 32 bytes.
#[derive(Clone, Copy, Debug)]
pub struct SecretKey {
    pub repr: [u8; 32],
}

impl View for SecretKey {
    type V = Seq<u8>;

    open spec fn view(&self) -> Seq<u8> {
        self.repr@
    }
}

impl SecretKey {
    /// The secret with the encoding `repr`.
    pub fn new(repr: [u8; 32]) -> (r: Self)
        ensures
            r.repr == repr,
    {
        SecretKey { repr }
    }
}

impl PartialEq for SecretKey {
    fn eq(&self, other: &Self) -> (r: bool) {
        same_bytes(&self.repr, &other.repr)
    }
}

impl Eq for SecretKey {

}

impl PartialEqSpecImpl for SecretKey {
    open spec fn obeys_eq_spec() -> bool {
        true
    }

    open spec fn eq_spec(&self, other: &Self) -> bool {
        self.repr@ == other.repr@
    }
}

} // verus!
