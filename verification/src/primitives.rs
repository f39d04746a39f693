//! The calls into the cryptographic crates, and what is known of their results.
use chacha20poly1305::aead::{Aead, KeyInit, Payload};
use chacha20poly1305::{ChaCha20Poly1305, Key, Nonce};
use hkdf::Hkdf;
use hmac::{Hmac, Mac};
use rand_core::{OsRng, RngCore};
use sha2::{Digest, Sha256};
use vstd::prelude::*;

verus! {

/// The longest message that the cipher seals: as many blocks as its counter reaches.
pub const MAX_SEALED: u64 = 274_877_906_816;

/// The bytes that sealing adds to a message.
pub const SEAL_OVERHEAD: usize = 16;

/// The longest output of the key derivation.
pub const MAX_DERIVED: usize = 8160;

/// Sixteen bytes from the system's random number generator, by `getrandom::getrandom`.
///
/// Nothing is known of the bytes. The call panics where the system has no source of
/// randomness, which no argument decides.
#[verifier::external_body]
pub(crate) fn random16() -> (r: [u8; 16]) {
    let mut bytes = [0u8; 16];
    getrandom::getrandom(&mut bytes).expect("CSPRNG unavailable");
    bytes
}

/// `len` bytes from the system's random number generator, by `OsRng::fill_bytes`.
///
/// Nothing but their number is known of the bytes. The call panics where the system has no
/// source of randomness, which no argument decides.
#[verifier::external_body]
pub(crate) fn random_bytes(len: usize) -> (r: Vec<u8>)
    ensures
        r@.len() == len,
{
    let mut bytes = vec![0u8; len];
    OsRng.fill_bytes(&mut bytes);
    bytes
}

/// The SHA-256 digest of `data`.
pub uninterp spec fn sha256_of(data: Seq<u8>) -> Seq<u8>;

/// The SHA-256 digest of `data`, by `Sha256::digest`: thirty-two bytes that the data alone
/// decides.
#[verifier::external_body]
pub(crate) fn sha256(data: &[u8]) -> (r: [u8; 32])
    ensures
        r@ == sha256_of(data@),
{
    Sha256::digest(data).into()
}

/// The HMAC-SHA-256 code of `data` under `key`.
pub uninterp spec fn hmac_sha256_of(key: Seq<u8>, data: Seq<u8>) -> [u8; 32];

/// The HMAC-SHA-256 code of `data` under `key`, by `Hmac<Sha256>`: thirty-two bytes that the
/// key and the data decide. A key of any length is taken.
#[verifier::external_body]
pub(crate) fn hmac_sha256(key: &[u8], data: &[u8]) -> (r: [u8; 32])
    ensures
        r == hmac_sha256_of(key@, data@),
{
    let mut mac = <Hmac<Sha256> as Mac>::new_from_slice(key).expect("a key of any length");
    mac.update(data);
    mac.finalize().into_bytes().into()
}

/// The `len` bytes that HKDF-SHA-256 derives from a salt, key material and a label.
pub uninterp spec fn hkdf_sha256_of(
    salt: Seq<u8>,
    material: Seq<u8>,
    label: Seq<u8>,
    len: nat,
) -> Seq<u8>;

/// Derives `len` bytes from a salt, key material and a label, by `Hkdf<Sha256>`'s `new` and
/// `expand`: as many bytes as asked for, which the arguments decide. `expand` refuses more
/// than 255 digests.
#[verifier::external_body]
pub(crate) fn hkdf_sha256(salt: &[u8], material: &[u8], label: &[u8], len: usize) -> (r: Vec<u8>)
    requires
        len <= MAX_DERIVED,
    ensures
        r@ == hkdf_sha256_of(salt@, material@, label@, len as nat),
        r@.len() == len,
{
    let mut out = vec![0u8; len];
    Hkdf::<Sha256>::new(Some(salt), material).expand(label, &mut out).expect("within the limit");
    out
}

/// What ChaCha20-Poly1305 seals a message into: its ciphertext and the tag.
pub uninterp spec fn sealed(key: Seq<u8>, nonce: Seq<u8>, aad: Seq<u8>, msg: Seq<u8>) -> Seq<u8>;

/// What ChaCha20-Poly1305 opens a ciphertext with its tag to, if the tag is right.
pub uninterp spec fn opened(
    key: Seq<u8>,
    nonce: Seq<u8>,
    aad: Seq<u8>,
    sealed: Seq<u8>,
) -> Option<Seq<u8>>;

/// Seals a message, by `ChaCha20Poly1305::encrypt`: the result is the message's length and a
/// tag longer, the arguments decide it, and it opens to the message under the same key, nonce
/// and associated data. The cipher's counter runs out past `MAX_SEALED` bytes.
#[verifier::external_body]
pub(crate) fn seal(key: &[u8; 32], nonce: &[u8; 12], aad: &[u8], msg: &[u8]) -> (r: Vec<u8>)
    requires
        msg@.len() <= MAX_SEALED,
    ensures
        r@ == sealed(key@, nonce@, aad@, msg@),
        r@.len() == msg@.len() + SEAL_OVERHEAD,
        opened(key@, nonce@, aad@, r@) == Some(msg@),
{
    ChaCha20Poly1305::new(Key::from_slice(key))
        .encrypt(Nonce::from_slice(nonce), Payload { msg, aad })
        .expect("within the limit")
}

/// Opens what was sealed, by `ChaCha20Poly1305::decrypt`: the arguments decide whether it
/// opens and to what, and nothing opens that sealing its content would not give. The cipher's
/// counter runs out past `MAX_SEALED` bytes of message.
#[verifier::external_body]
pub(crate) fn open(key: &[u8; 32], nonce: &[u8; 12], aad: &[u8], ct: &[u8]) -> (r: Option<Vec<u8>>)
    requires
        ct@.len() <= MAX_SEALED + SEAL_OVERHEAD,
    ensures
        r is Some <==> opened(key@, nonce@, aad@, ct@) is Some,
        r matches Some(msg) ==> {
            &&& opened(key@, nonce@, aad@, ct@) == Some(msg@)
            &&& sealed(key@, nonce@, aad@, msg@) == ct@
            &&& ct@.len() == msg@.len() + SEAL_OVERHEAD
        },
{
    ChaCha20Poly1305::new(Key::from_slice(key))
        .decrypt(Nonce::from_slice(nonce), Payload { msg: ct, aad })
        .ok()
}

/// The product of a secret number and a point on Curve25519, both as thirty-two bytes.
pub uninterp spec fn x25519_of(secret: Seq<u8>, point: Seq<u8>) -> [u8; 32];

/// The base point of Curve25519.
pub open spec fn basepoint() -> Seq<u8> {
    seq![9u8] + Seq::new(31, |i: int| 0u8)
}

/// Whether `public` is the public key of `secret`: the base point multiplied by it, with which
/// every other secret agrees on what this one agrees on with the other's public key.
pub open spec fn public_of(secret: Seq<u8>, public: Seq<u8>) -> bool {
    &&& public == x25519_of(secret, basepoint())@
    &&& forall|other: Seq<u8>|
        other.len() == 32 ==> #[trigger] x25519_of(other, public) == x25519_of(
            secret,
            x25519_of(other, basepoint())@,
        )
}

/// Multiplies a point by a secret number, by `x25519_dalek::x25519`: thirty-two bytes that the
/// arguments decide. Of the base point it gives the secret's public key, on which two parties
/// build a shared secret that is the same for both.
#[verifier::external_body]
pub(crate) fn x25519(secret: &[u8; 32], point: &[u8; 32]) -> (r: [u8; 32])
    ensures
        r == x25519_of(secret@, point@),
        point@ == basepoint() ==> public_of(secret@, r@),
{
    x25519_dalek::x25519(*secret, *point)
}

} // verus!
