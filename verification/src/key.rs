use vstd::prelude::*;
use ring::error::Unspecified;
use ring::rand::SystemRandom;
use ring::signature::{Ed25519KeyPair, KeyPair, UnparsedPublicKey, ED25519};
use std::collections::hash_map::DefaultHasher;
use std::hash::Hasher;
use vstd::std_specs::hash::DefaultHasherAdditionalSpecFns;

verus! {

/// The 64-bit digest of a public key: the standard hasher fed the key's
/// bytes in one write.
pub open spec fn key_digest(pub_key: Seq<u8>) -> u64 {
    DefaultHasher::spec_finish(seq![pub_key])
}

/// Whether `sig` is a valid Ed25519 signature of `msg` under the public
/// key `pub_key`.
pub uninterp spec fn ed25519_accepts(pub_key: Seq<u8>, msg: Seq<u8>, sig: Seq<u8>) -> bool;

/// Whether `document` is accepted as an Ed25519 key in PKCS#8 v2 form.
pub uninterp spec fn pkcs8_accepted(document: Seq<u8>) -> bool;

/// The public key of the Ed25519 key pair that the accepted PKCS#8
/// document `document` holds.
pub uninterp spec fn ed25519_public_key(document: Seq<u8>) -> Seq<u8>;

/// The Ed25519 signature of `msg` by the key pair that the accepted PKCS#8
/// document `document` holds.
pub uninterp spec fn ed25519_signature(document: Seq<u8>, msg: Seq<u8>) -> Seq<u8>;

#[verifier::external_type_specification]
#[verifier::external_body]
pub struct ExUnspecified(Unspecified);

/// Why no key could be had.
#[derive(Debug, Clone, Copy, PartialEq, Eq, Structural)]
pub enum KeyError {
    /// The key could not be generated.
    Unspecified,
    /// The bytes are no Ed25519 key in PKCS#8 form.
    Rejected,
}

/// An Ed25519 key pair, held as its PKCS#8 document. The document of a
/// key is always one that is accepted.
pub struct Key {
    bytes: Vec<u8>,
}

/// `Ed25519KeyPair::generate_pkcs8` on a `SystemRandom`: a new key as a
/// PKCS#8 document, or the failure to make one; nothing is known of its
/// bytes.
#[verifier::external_body]
fn generate_document() -> (r: Result<Vec<u8>, Unspecified>) {
    let rng = SystemRandom::new();
    Ed25519KeyPair::generate_pkcs8(&rng).map(|document| document.as_ref().to_vec())
}

/// `Ed25519KeyPair::from_pkcs8`: whether the document is accepted, which
/// goes by its bytes alone.
#[verifier::external_body]
fn document_accepted(document: &Vec<u8>) -> (r: bool)
    ensures
        r == pkcs8_accepted(document@),
{
    Ed25519KeyPair::from_pkcs8(document.as_slice()).is_ok()
}

/// `KeyPair::public_key` of the key pair that `Ed25519KeyPair::from_pkcs8`
/// makes of the document: its 32 bytes, which go by the document alone;
/// none where the document is not accepted.
#[verifier::external_body]
fn public_key_of(document: &Vec<u8>) -> (r: Option<Vec<u8>>)
    ensures
        r is Some == pkcs8_accepted(document@),
        r is Some ==> r->Some_0@ == ed25519_public_key(document@) && r->Some_0@.len() == 32,
{
    Ed25519KeyPair::from_pkcs8(document.as_slice()).ok().map(
        |key_pair| key_pair.public_key().as_ref().to_vec(),
    )
}

/// `Ed25519KeyPair::sign` by the key pair that
/// `Ed25519KeyPair::from_pkcs8` makes of the document: the 64 bytes of
/// the signature of `msg`, which go by the document and the message
/// alone; none where the document is not accepted.
#[verifier::external_body]
fn signature_of(document: &Vec<u8>, msg: &[u8]) -> (r: Option<Vec<u8>>)
    ensures
        r is Some == pkcs8_accepted(document@),
        r is Some ==> r->Some_0@ == ed25519_signature(document@, msg@) && r->Some_0@.len() == 64,
{
    Ed25519KeyPair::from_pkcs8(document.as_slice()).ok().map(
        |key_pair| key_pair.sign(msg).as_ref().to_vec(),
    )
}

/// `UnparsedPublicKey::verify` on a key made by `UnparsedPublicKey::new`
/// for the `ED25519` algorithm: whether `sig` is a valid signature of `msg`
/// under `pub_key`. The answer goes by the three byte strings alone.
#[verifier::external_body]
fn signature_accepted(pub_key: &Vec<u8>, msg: &Vec<u8>, sig: &Vec<u8>) -> (r: bool)
    ensures
        r == ed25519_accepts(pub_key@, msg@, sig@),
{
    UnparsedPublicKey::new(&ED25519, pub_key.as_slice()).verify(msg.as_slice(), sig.as_slice()).is_ok()
}

impl Clone for Key {
    /// A second key from the same document.
    fn clone(&self) -> (r: Key)
        ensures
            r.document() == self.document(),
    {
        proof {
            use_type_invariant(self);
        }
        Key { bytes: self.bytes.clone() }
    }
}

impl Key {
    #[verifier::type_invariant]
    spec fn accepted(self) -> bool {
        pkcs8_accepted(self.bytes@)
    }

    /// The PKCS#8 document of the key.
    pub closed spec fn document(self) -> Seq<u8> {
        self.bytes@
    }

    /// A new key pair: what [`Key::from_generated`] makes of a newly
    /// generated document. A key that comes back holds an accepted
    /// document.
    pub fn new_generate() -> (r: Result<Key, KeyError>)
        ensures
            r is Ok ==> pkcs8_accepted(r->Ok_0.document()),
    {
        let generated = generate_document();
        Key::from_generated(generated)
    }

    /// The key pair of a document that was to be generated: where the
    /// generation failed, that is the error; else the key pair is the one
    /// that the document holds, as [`Key::from_document`] has it.
    pub fn from_generated(generated: Result<Vec<u8>, Unspecified>) -> (r: Result<Key, KeyError>)
        ensures
            generated is Err ==> r is Err && r->Err_0 == KeyError::Unspecified,
            generated is Ok ==> (r is Ok) == pkcs8_accepted(generated->Ok_0@),
            generated is Ok && r is Ok ==> r->Ok_0.document() == generated->Ok_0@,
            generated is Ok && r is Err ==> r->Err_0 == KeyError::Rejected,
    {
        match generated {
            Ok(bytes) => Key::from_document(bytes),
            Err(_) => Err(KeyError::Unspecified),
        }
    }

    /// The key pair that the PKCS#8 document `bytes` holds, where the
    /// document is accepted.
    pub fn from_document(bytes: Vec<u8>) -> (r: Result<Key, KeyError>)
        ensures
            r is Ok == pkcs8_accepted(bytes@),
            r is Ok ==> r->Ok_0.document() == bytes@,
            r is Err ==> r->Err_0 == KeyError::Rejected,
    {
        if document_accepted(&bytes) {
            Ok(Key { bytes })
        } else {
            Err(KeyError::Rejected)
        }
    }

    /// A copy of the key's PKCS#8 document.
    pub fn bytes(&self) -> (r: Vec<u8>)
        ensures
            r@ == self.document(),
    {
        self.bytes.clone()
    }

    /// The public key: the 32 bytes that belong to the key's document.
    pub fn get_pub(&self) -> (r: Vec<u8>)
        ensures
            r@ == ed25519_public_key(self.document()),
            r@.len() == 32,
    {
        proof {
            use_type_invariant(self);
        }
        public_key_of(&self.bytes).unwrap()
    }

    /// The signature of `msg` by the key: the 64 bytes that belong to the
    /// key's document and the message.
    pub fn sign(self, msg: &[u8]) -> (r: Vec<u8>)
        ensures
            r@ == ed25519_signature(self.document(), msg@),
            r@.len() == 64,
    {
        proof {
            use_type_invariant(&self);
        }
        signature_of(&self.bytes, msg).unwrap()
    }

    /// Whether `sig` is a valid signature of `msg` under `pub_key`.
    pub fn verify(pub_key: Vec<u8>, sig: Vec<u8>, msg: Vec<u8>) -> (r: bool)
        ensures
            r == ed25519_accepts(pub_key@, msg@, sig@),
    {
        signature_accepted(&pub_key, &msg, &sig)
    }

    /// The peer id that belongs to a public key.
    pub fn pub_to_int(pub_key: Vec<u8>) -> (id: u64)
        ensures
            id == key_digest(pub_key@),
    {
        let mut hasher = DefaultHasher::new();
        hasher.write(pub_key.as_slice());
        hasher.finish()
    }
}

} // verus!
