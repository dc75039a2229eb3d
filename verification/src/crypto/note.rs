//! Notes, encrypted notes, and the trial decryption of a note with the secrets
//! that a wallet holds.
//!
//! The cipher itself is the caller's: it comes as a function from an encrypted
//! note and a secret to the note inside, or to nothing where the secret does not
//! open it. What this module states holds of every such function.

use crate::crypto::keys::SecretKey;
use vstd::bytes::{
    lemma_auto_spec_u64_to_from_le_bytes, spec_u64_to_le_bytes, u64_from_le_bytes, u64_to_le_bytes,
};
use vstd::prelude::*;
use vstd::slice::slice_subrange;

verus! {

/// What a coin is worth and what its commitment was made from.
#[derive(Clone, Copy, Debug)]
pub struct Note {
    pub serial: [u8; 32],
    pub value: u64,
    pub coin_blind: [u8; 32],
    pub valcom_blind: [u8; 32],
}

/// The length of a note in bytes.
pub const NOTE_SIZE: usize = 104;

/// A note in bytes: the serial, the value in eight bytes with the lowest first,
/// the blind of the coin, and the blind of the value commitment.
pub open spec fn note_bytes(note: Note) -> Seq<u8> {
    note.serial@ + spec_u64_to_le_bytes(note.value) + note.coin_blind@ + note.valcom_blind@
}

/// The 32 bytes of `bytes` from `start` on.
fn take_repr(bytes: &[u8], start: usize) -> (r: [u8; 32])
    requires
        start + 32 <= bytes.len(),
    ensures
        r@ == bytes@.subrange(start as int, start + 32),
{
    let mut repr = [0u8;32];
    let mut i: usize = 0;
    while i < 32
        invariant
            start + 32 <= bytes.len(),
            forall|j: int| 0 <= j < i ==> repr@[j] == bytes@[start + j],
        decreases 32 - i,
    {
        repr[i] = bytes[start + i];
        i = i + 1;
    }
    repr
}

/// Adds the 32 bytes of `repr` to the end of `out`.
fn put_repr(out: &mut Vec<u8>, repr: &[u8; 32])
    ensures
        final(out)@ == old(out)@ + repr@,
{
    let mut i: usize = 0;
    while i < 32
        invariant
            i <= 32,
            out@ == old(out)@ + repr@.subrange(0, i as int),
        decreases 32 - i,
    {
        out.push(repr[i]);
        i = i + 1;
    }
}

impl Note {
    /// The note in bytes.
    pub fn to_bytes(&self) -> (r: Vec<u8>)
        ensures
            r@ == note_bytes(*self),
            r.len() == NOTE_SIZE,
    {
        let mut out: Vec<u8> = Vec::new();
        put_repr(&mut out, &self.serial);
        let value = u64_to_le_bytes(self.value);
        let mut i: usize = 0;
        let ghost head = out@;
        while i < 8
            invariant
                i <= 8,
                value.len() == 8,
                out@ == head + value@.subrange(0, i as int),
            decreases 8 - i,
        {
            out.push(value[i]);
            i = i + 1;
        }
        put_repr(&mut out, &self.coin_blind);
        put_repr(&mut out, &self.valcom_blind);
        out
    }

    /// The note that `bytes` are, if they are as many as a note has. Every sequence
    /// of that length is a note.
    pub fn from_bytes(bytes: &[u8]) -> (r: Option<Self>)
        ensures
            match r {
                Some(note) => bytes@.len() == NOTE_SIZE && bytes@ == note_bytes(note),
                None => bytes@.len() != NOTE_SIZE,
            },
    {
        if bytes.len() != NOTE_SIZE {
            return None;
        }
        let serial = take_repr(bytes, 0);
        let value = u64_from_le_bytes(slice_subrange(bytes, 32, 40));
        let coin_blind = take_repr(bytes, 40);
        let valcom_blind = take_repr(bytes, 72);
        let note = Note { serial, value, coin_blind, valcom_blind };
        proof {
            lemma_auto_spec_u64_to_from_le_bytes();
        }
        Some(note)
    }
}

/// A note as it travels with its coin: readable by the owner of the coin only.
#[derive(Debug)]
pub struct EncryptedNote {
    pub ciphertext: Vec<u8>,
    pub ephem_public: [u8; 32],
}

impl Clone for EncryptedNote {
    /// A second encrypted note with the same bytes.
    fn clone(&self) -> (r: Self)
        ensures
            r.ciphertext@ == self.ciphertext@,
            r.ephem_public == self.ephem_public,
    {
        let mut ciphertext: Vec<u8> = Vec::new();
        let mut i: usize = 0;
        while i < self.ciphertext.len()
            invariant
                i <= self.ciphertext.len(),
                ciphertext@ == self.ciphertext@.subrange(0, i as int),
            decreases self.ciphertext.len() - i,
        {
            ciphertext.push(self.ciphertext[i]);
            i = i + 1;
        }
        EncryptedNote { ciphertext, ephem_public: self.ephem_public }
    }
}

/// Whether `outcome` is what the trial decryption of `ciphertext` may give with
/// `secrets` and the cipher `decrypt`: the note and the secret of the first secret
/// that opens it, every secret before that one having failed; or nothing, every
/// secret having failed.
pub open spec fn is_trial_outcome<F: Fn(&EncryptedNote, &SecretKey) -> Option<Note>>(
    decrypt: &F,
    secrets: Seq<SecretKey>,
    ciphertext: &EncryptedNote,
    outcome: Option<(Note, SecretKey)>,
) -> bool {
    match outcome {
        Some((note, secret)) => exists|i: int|
            #![trigger secrets[i]]
            {
                &&& 0 <= i < secrets.len()
                &&& secrets[i] == secret
                &&& decrypt.ensures((ciphertext, &secrets[i]), Some(note))
                &&& all_fail(decrypt, secrets, ciphertext, i)
            },
        None => all_fail(decrypt, secrets, ciphertext, secrets.len() as int),
    }
}

/// Whether each of the first `n` secrets fails to open `ciphertext`.
pub open spec fn all_fail<F: Fn(&EncryptedNote, &SecretKey) -> Option<Note>>(
    decrypt: &F,
    secrets: Seq<SecretKey>,
    ciphertext: &EncryptedNote,
    n: int,
) -> bool {
    forall|j: int|
        #![trigger secrets[j]]
        0 <= j < n ==> decrypt.ensures((ciphertext, &secrets[j]), None::<Note>)
}

/// Whether `decrypt` gives one result, and no other, for each encrypted note and
/// secret: what a cipher does.
pub open spec fn is_deterministic<F: Fn(&EncryptedNote, &SecretKey) -> Option<Note>>(
    decrypt: &F,
) -> bool {
    forall|ciphertext: &EncryptedNote, secret: &SecretKey, a: Option<Note>, b: Option<Note>|
        #![trigger decrypt.ensures((ciphertext, secret), a), decrypt.ensures((ciphertext, secret), b)]
        decrypt.ensures((ciphertext, secret), a) && decrypt.ensures((ciphertext, secret), b) ==> a
            == b
}

/// Trial decryption is repeatable: with a cipher that gives one result for each
/// note and secret, the same encrypted note and the same secrets give the same
/// outcome, success with the same note and secret or failure.
pub proof fn lemma_trial_outcome_is_unique<F: Fn(&EncryptedNote, &SecretKey) -> Option<Note>>(
    decrypt: &F,
    secrets: Seq<SecretKey>,
    ciphertext: &EncryptedNote,
    first: Option<(Note, SecretKey)>,
    second: Option<(Note, SecretKey)>,
)
    requires
        is_deterministic(decrypt),
        is_trial_outcome(decrypt, secrets, ciphertext, first),
        is_trial_outcome(decrypt, secrets, ciphertext, second),
    ensures
        first == second,
{
}

/// Tries the secrets in their order on `ciphertext` and stops at the first that
/// opens it. A secret that does not open the note is no error: the next is tried.
pub fn trial_decrypt<F: Fn(&EncryptedNote, &SecretKey) -> Option<Note>>(
    secrets: &Vec<SecretKey>,
    ciphertext: &EncryptedNote,
    decrypt: &F,
) -> (r: Option<(Note, SecretKey)>)
    requires
        forall|c: &EncryptedNote, s: &SecretKey| decrypt.requires((c, s)),
    ensures
        is_trial_outcome(decrypt, secrets@, ciphertext, r),
{
    let mut i: usize = 0;
    while i < secrets.len()
        invariant
            forall|c: &EncryptedNote, s: &SecretKey| decrypt.requires((c, s)),
            all_fail(decrypt, secrets@, ciphertext, i as int),
        decreases secrets.len() - i,
    {
        match decrypt(ciphertext, &secrets[i]) {
            Some(note) => {
                return Some((note, secrets[i]));
            },
            None => {},
        }
        i = i + 1;
    }
    None
}

} // verus!
