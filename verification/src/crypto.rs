//! Digests, public keys and signatures as fixed-size byte strings.

use vstd::prelude::*;
use crate::bytes::bytes_eq;

verus! {

/// A 32-byte digest.
#[derive(Clone, Copy, Debug)]
pub struct Digest(pub [u8; 32]);

impl View for Digest {
    type V = Seq<u8>;

    open spec fn view(&self) -> Seq<u8> {
        self.0@
    }
}

impl PartialEq for Digest {
    fn eq(&self, other: &Digest) -> (equal: bool) {
        bytes_eq(&self.0, &other.0)
    }
}

impl vstd::std_specs::cmp::PartialEqSpecImpl for Digest {
    open spec fn obeys_eq_spec() -> bool {
        true
    }

    open spec fn eq_spec(&self, other: &Digest) -> bool {
        self@ == other@
    }
}

impl Digest {
    /// The bytes of the digest.
    pub fn to_vec(&self) -> (out: Vec<u8>)
        ensures
            out@ == self@,
    {
        let mut out: Vec<u8> = Vec::new();
        crate::bytes::append_bytes(&mut out, &self.0);
        out
    }
}

/// The identity of an authority: its 32-byte public key.
#[derive(Clone, Copy, Debug)]
pub struct PublicKey(pub [u8; 32]);

impl View for PublicKey {
    type V = Seq<u8>;

    open spec fn view(&self) -> Seq<u8> {
        self.0@
    }
}

impl PartialEq for PublicKey {
    fn eq(&self, other: &PublicKey) -> (equal: bool) {
        bytes_eq(&self.0, &other.0)
    }
}

impl vstd::std_specs::cmp::PartialEqSpecImpl for PublicKey {
    open spec fn obeys_eq_spec() -> bool {
        true
    }

    open spec fn eq_spec(&self, other: &PublicKey) -> bool {
        self@ == other@
    }
}

impl PublicKey {
    /// Whether the bytes are a key.
    pub fn is_valid(&self) -> (valid: bool)
        ensures
            valid == is_point(self@),
    {
        decodes_point(&self.0)
    }

    /// The bytes of the key.
    pub fn to_vec(&self) -> (out: Vec<u8>)
        ensures
            out@ == self@,
    {
        let mut out: Vec<u8> = Vec::new();
        crate::bytes::append_bytes(&mut out, &self.0);
        out
    }
}

/// An Ed25519 signature, in two halves.
#[derive(Clone, Copy, Debug)]
pub struct Signature {
    pub part1: [u8; 32],
    pub part2: [u8; 32],
}

impl View for Signature {
    type V = Seq<u8>;

    open spec fn view(&self) -> Seq<u8> {
        self.part1@ + self.part2@
    }
}

/// Whether `signature` is accepted as one by `key` over `message`.
pub uninterp spec fn signature_accepted(message: Seq<u8>, key: Seq<u8>, signature: Seq<u8>) -> bool;

/// Calls `ed25519_dalek::PublicKey::verify_strict`. The answer is a function of the message, the
/// key and the signature; bytes that are no key or no signature are not accepted.
#[verifier::external_body]
fn check_signature(message: &[u8], key: &[u8], signature: &[u8]) -> (accepted: bool)
    ensures
        accepted == signature_accepted(message@, key@, signature@),
{
    let key = ed25519_dalek::PublicKey::from_bytes(key);
    match (key, ed25519_dalek::Signature::from_bytes(signature)) {
        (Ok(key), Ok(signature)) => key.verify_strict(message, &signature).is_ok(),
        _ => false,
    }
}

/// Whether 32 bytes encode a point of the curve, and so can be a key.
pub uninterp spec fn is_point(bytes: Seq<u8>) -> bool;

/// The order of the group that the signatures are computed in.
pub open spec fn group_order() -> nat {
    0x1000000000000000000000000000000014def9dea2f79cd65812631a5cf5d3ednat
}

/// The bytes have the form of a signature: a point, and a number below the order of the group.
pub open spec fn has_signature_form(bytes: Seq<u8>) -> bool {
    &&& is_point(bytes.take(32))
    &&& crate::bytes::le_value(bytes.skip(32)) < group_order()
}

/// Every vote has a key and the form of a signature.
pub open spec fn votes_have_form(votes: Seq<(PublicKey, Signature)>) -> bool {
    forall|i: int|
        0 <= i < votes.len() ==> is_point((#[trigger] votes[i]).0@) && has_signature_form(
            votes[i].1@,
        )
}

/// Calls `ed25519_dalek::PublicKey::from_bytes`, which takes exactly the encodings of points.
#[verifier::external_body]
fn decodes_point(bytes: &[u8; 32]) -> (decodes: bool)
    ensures
        decodes == is_point(bytes@),
{
    ed25519_dalek::PublicKey::from_bytes(bytes).is_ok()
}

/// The key that belongs to a secret.
pub uninterp spec fn public_key_of(secret: Seq<u8>) -> Seq<u8>;

/// The signature over a message that is made with a secret.
pub uninterp spec fn signature_by(secret: Seq<u8>, message: Seq<u8>) -> Seq<u8>;

/// Calls `ed25519_dalek::PublicKey::from` on a secret key. The result is a function of the bytes
/// of the secret.
#[verifier::external_body]
fn derive_key(secret: &[u8; 32]) -> (key: [u8; 32])
    ensures
        key@ == public_key_of(secret@),
{
    let secret = ed25519_dalek::SecretKey::from_bytes(secret).expect("32 bytes are a secret");
    ed25519_dalek::PublicKey::from(&secret).to_bytes()
}

/// Calls `ed25519_dalek::ExpandedSecretKey::sign` with the key that belongs to the secret. The
/// signature draws no random numbers: it is a function of the secret and the message.
#[verifier::external_body]
fn make_signature(secret: &[u8; 32], message: &[u8]) -> (signature: [u8; 64])
    ensures
        signature@ == signature_by(secret@, message@),
{
    let secret = ed25519_dalek::SecretKey::from_bytes(secret).expect("32 bytes are a secret");
    let key = ed25519_dalek::PublicKey::from(&secret);
    ed25519_dalek::ExpandedSecretKey::from(&secret).sign(message, &key).to_bytes()
}

/// The key and the signature over the message were made with one secret.
pub open spec fn genuine(message: Seq<u8>, key: Seq<u8>, signature: Seq<u8>) -> bool {
    exists|secret: Seq<u8>|
        secret.len() == 32 && key == #[trigger] public_key_of(secret) && signature == signature_by(
            secret,
            message,
        )
}

/// Every vote is a signature over the message, made with the secret of the voter.
pub open spec fn all_genuine(message: Seq<u8>, votes: Seq<(PublicKey, Signature)>) -> bool {
    forall|i: int|
        0 <= i < votes.len() ==> genuine(message, (#[trigger] votes[i]).0@, votes[i].1@)
}

/// Calls `ed25519_dalek::verify_batch` with one message for all keys and signatures. There have
/// to be as many signatures as keys, and a batch is not accepted with bytes that are no key or
/// have not the form of a signature. A batch in which each signature over the message was made
/// with the secret of its key is accepted, whatever random numbers the check draws; so is the
/// empty batch. Whether other batches are accepted depends on those numbers and is left open.
#[verifier::external_body]
fn check_signature_batch(message: &[u8], keys: &Vec<[u8; 32]>, signatures: &Vec<[u8; 64]>) -> (accepted:
    bool)
    ensures
        accepted ==> keys@.len() == signatures@.len(),
        accepted ==> forall|i: int| 0 <= i < keys@.len() ==> is_point((#[trigger] keys@[i])@),
        accepted ==> forall|i: int|
            0 <= i < signatures@.len() ==> has_signature_form((#[trigger] signatures@[i])@),
        keys@.len() == signatures@.len() && (forall|i: int|
            0 <= i < keys@.len() ==> genuine(
                message@,
                (#[trigger] keys@[i])@,
                signatures@[i]@,
            )) ==> accepted,
{
    let messages: Vec<&[u8]> = keys.iter().map(|_| message).collect();
    let keys = keys.iter().map(|key| ed25519_dalek::PublicKey::from_bytes(key));
    let signatures = signatures.iter().map(|bytes| ed25519_dalek::Signature::from_bytes(bytes));
    match (keys.collect::<Result<Vec<_>, _>>(), signatures.collect::<Result<Vec<_>, _>>()) {
        (Ok(keys), Ok(sigs)) => ed25519_dalek::verify_batch(&messages, &sigs, &keys).is_ok(),
        _ => false,
    }
}

/// A secret, from which the key of an authority and its signatures are made.
#[derive(Clone)]
pub struct SecretKey(pub [u8; 32]);

impl View for SecretKey {
    type V = Seq<u8>;

    open spec fn view(&self) -> Seq<u8> {
        self.0@
    }
}

impl SecretKey {
    /// The key that belongs to the secret.
    pub fn public_key(&self) -> (key: PublicKey)
        ensures
            key@ == public_key_of(self@),
    {
        PublicKey(derive_key(&self.0))
    }
}

impl Signature {
    /// The signature over `digest` that is made with a secret. It is genuine for the key that
    /// belongs to the secret.
    pub fn new(digest: &Digest, secret: &SecretKey) -> (signature: Signature)
        ensures
            signature@ == signature_by(secret@, digest@),
            genuine(digest@, public_key_of(secret@), signature@),
    {
        let bytes = make_signature(&secret.0, &digest.0);
        let mut signature = Signature { part1: [0u8; 32], part2: [0u8; 32] };
        let mut i: usize = 0;
        while i < 32
            invariant
                i <= 32,
                forall|j: int| 0 <= j < i ==> signature.part1@[j] == bytes@[j],
                forall|j: int| 0 <= j < i ==> signature.part2@[j] == bytes@[32 + j],
            decreases 32 - i,
        {
            signature.part1[i] = bytes[i];
            signature.part2[i] = bytes[32 + i];
            i = i + 1;
        }
        assert(signature@ =~= bytes@);
        signature
    }

    /// The 64 bytes of the signature.
    pub fn flatten(&self) -> (bytes: [u8; 64])
        ensures
            bytes@ == self@,
    {
        let mut bytes: [u8; 64] = [0u8; 64];
        let mut i: usize = 0;
        while i < 32
            invariant
                i <= 32,
                forall|j: int| 0 <= j < i ==> bytes@[j] == self.part1@[j],
                forall|j: int| 0 <= j < i ==> bytes@[32 + j] == self.part2@[j],
            decreases 32 - i,
        {
            bytes[i] = self.part1[i];
            bytes[32 + i] = self.part2[i];
            i = i + 1;
        }
        assert(bytes@ =~= self@);
        bytes
    }

    /// Whether this is a signature by `key` over `digest`.
    pub fn verify(&self, digest: &Digest, key: &PublicKey) -> (accepted: bool)
        ensures
            accepted == signature_accepted(digest@, key@, self@),
    {
        let bytes = self.flatten();
        check_signature(&digest.0, &key.0, &bytes)
    }

    /// The keys and the signatures of a list of votes.
    pub fn split_votes(votes: &Vec<(PublicKey, Signature)>) -> (split: (
        Vec<[u8; 32]>,
        Vec<[u8; 64]>,
    ))
        ensures
            split.0@.len() == votes@.len(),
            split.1@.len() == votes@.len(),
            forall|i: int| 0 <= i < votes@.len() ==> (#[trigger] split.0@[i])@ == votes@[i].0@,
            forall|i: int| 0 <= i < votes@.len() ==> (#[trigger] split.1@[i])@ == votes@[i].1@,
    {
        let mut keys: Vec<[u8; 32]> = Vec::new();
        let mut signatures: Vec<[u8; 64]> = Vec::new();
        let mut i: usize = 0;
        while i < votes.len()
            invariant
                i <= votes@.len(),
                keys@.len() == i,
                signatures@.len() == i,
                forall|j: int| 0 <= j < i ==> (#[trigger] keys@[j])@ == votes@[j].0@,
                forall|j: int| 0 <= j < i ==> (#[trigger] signatures@[j])@ == votes@[j].1@,
            decreases votes@.len() - i,
        {
            keys.push(votes[i].0.0);
            signatures.push(votes[i].1.flatten());
            i = i + 1;
        }
        (keys, signatures)
    }

    /// Whether all votes are signatures over `digest`, as far as a randomized check can tell. It
    /// accepts no vote without a key or the form of a signature, and it accepts if every vote was
    /// made with the secret of its voter.
    pub(crate) fn verify_batch(digest: &Digest, votes: &Vec<(PublicKey, Signature)>) -> (accepted:
        bool)
        ensures
            accepted ==> votes_have_form(votes@),
            all_genuine(digest@, votes@) ==> accepted,
    {
        let (keys, signatures) = Signature::split_votes(votes);
        let accepted = check_signature_batch(&digest.0, &keys, &signatures);
        proof {
            if accepted {
                assert forall|j: int| 0 <= j < votes@.len() implies is_point(
                    (#[trigger] votes@[j]).0@,
                ) && has_signature_form(votes@[j].1@) by {
                    assert(keys@[j]@ == votes@[j].0@);
                    assert(signatures@[j]@ == votes@[j].1@);
                }
            }
            if all_genuine(digest@, votes@) {
                assert forall|j: int| 0 <= j < keys@.len() implies genuine(
                    digest@,
                    (#[trigger] keys@[j])@,
                    signatures@[j]@,
                ) by {
                    assert(genuine(digest@, votes@[j].0@, votes@[j].1@));
                }
            }
        }
        accepted
    }
}

} // verus!
