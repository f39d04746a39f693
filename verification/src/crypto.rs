//! The identifier and the keys of a band, and the sealing of its packets.
use crate::octets::{self, array12, array16, array32, push_all, push_be64};
use crate::primitives::{self, hkdf_sha256, open, seal, sha256, MAX_SEALED};
use vstd::prelude::*;

verus! {

/// The bytes of a band's identifier.
pub const BAND_ID_LEN: usize = 16;

/// The bytes of a key.
pub const KEY_LEN: usize = 32;

/// The bytes of a nonce.
pub const NONCE_LEN: usize = 12;

/// The bytes of an authentication tag.
pub const TAG_LEN: usize = 16;

/// The cipher that every peer speaks.
pub const BASELINE_CIPHER: &'static str = "chacha20-poly1305";

/// What a packet names its band by, in clear: the same for all who hold the band's secret.
pub type BandId = [u8; 16];

/// A key of the cipher.
pub type Key = [u8; 32];

/// Why a packet could not be sealed or opened.
#[derive(Debug, Clone, Copy, PartialEq, Eq, Structural)]
pub enum CryptoError {
    /// The message is longer than the cipher takes.
    Encrypt,
    /// The tag is wrong, or there is none.
    Decrypt,
}

/// The identifier of the band with the given secret: the front half of its digest.
pub open spec fn band_id_of(psk: Seq<u8>) -> Seq<u8> {
    primitives::sha256_of(psk).take(16)
}

/// The text that separates the keys of one band from those of everything else.
pub open spec fn key_salt() -> Seq<u8> {
    seq![0x74u8, 0x65, 0x6c, 0x65, 0x73, 0x74, 0x68, 0x65, 0x74, 0x65, 0x2d, 0x76, 0x31]
}

/// The text in front of a cipher's name that separates its key from those of other ciphers.
pub open spec fn key_label_front() -> Seq<u8> {
    seq![0x65u8, 0x6e, 0x63, 0x72, 0x79, 0x70, 0x74, 0x69, 0x6f, 0x6e, 0x2d]
}

/// The key of a cipher in the band with the given secret.
pub open spec fn cipher_key_of(psk: Seq<u8>, cipher: Seq<u8>) -> Seq<u8> {
    primitives::hkdf_sha256_of(key_salt(), psk, key_label_front() + cipher, 32)
}

/// The nonce of the packet numbered `seq`.
pub open spec fn nonce_of(seq: u64) -> Seq<u8> {
    seq![0u8, 0u8, 0u8, 0u8] + octets::be64(seq)
}

/// What a packet authenticates besides its content: the type of its channel and its number.
pub open spec fn aad_of(channel_type: u8, channel_id: u16) -> Seq<u8> {
    seq![channel_type] + octets::be16(channel_id)
}

/// Packets with different numbers have different nonces.
pub proof fn lemma_nonces_distinct(a: u64, b: u64)
    requires
        nonce_of(a) == nonce_of(b),
    ensures
        a == b,
{
    assert(nonce_of(a).skip(4) =~= octets::be64(a));
    assert(nonce_of(b).skip(4) =~= octets::be64(b));
    octets::lemma_be64_injective(a, b);
}

/// Different ciphers have their keys derived under different labels, all from the band's secret.
pub proof fn lemma_key_labels_distinct(psk: Seq<u8>, a: Seq<u8>, b: Seq<u8>)
    ensures
        key_label_front() + a == key_label_front() + b ==> a == b,
        cipher_key_of(psk, a) == primitives::hkdf_sha256_of(
            key_salt(),
            psk,
            key_label_front() + a,
            32,
        ),
{
    let n = key_label_front().len() as int;
    assert((key_label_front() + a).skip(n) =~= a);
    assert((key_label_front() + b).skip(n) =~= b);
}

/// Packets of different channels authenticate different bytes.
pub proof fn lemma_aads_distinct(type_a: u8, id_a: u16, type_b: u8, id_b: u16)
    requires
        aad_of(type_a, id_a) == aad_of(type_b, id_b),
    ensures
        type_a == type_b,
        id_a == id_b,
{
    let a = aad_of(type_a, id_a);
    let b = aad_of(type_b, id_b);
    assert(a[0] == type_a && b[0] == type_b);
    assert(a.subrange(1, 3) =~= octets::be16(id_a));
    assert(b.subrange(1, 3) =~= octets::be16(id_b));
    octets::lemma_be16_at(a, 1, id_a);
    octets::lemma_be16_at(b, 1, id_b);
}

/// The identifier of the band with the given secret.
pub fn derive_band_id(psk: &[u8]) -> (r: BandId)
    ensures
        r@ == band_id_of(psk@),
{
    let digest = sha256(psk);
    let id = array16(digest.as_slice(), 0);
    assert(id@ =~= primitives::sha256_of(psk@).take(16));
    id
}

/// The key of the named cipher in the band with the given secret.
pub fn derive_cipher_key(psk: &[u8], cipher: &str) -> (r: Key)
    ensures
        r@ == cipher_key_of(psk@, vstd::utf8::encode_utf8(cipher@)),
{
    let salt: [u8; 13] = [
        0x74, 0x65, 0x6c, 0x65, 0x73, 0x74, 0x68, 0x65, 0x74, 0x65, 0x2d, 0x76, 0x31,
    ];
    let front: [u8; 11] = [0x65, 0x6e, 0x63, 0x72, 0x79, 0x70, 0x74, 0x69, 0x6f, 0x6e, 0x2d];
    let mut label: Vec<u8> = Vec::new();
    push_all(&mut label, front.as_slice());
    push_all(&mut label, cipher.as_bytes());
    assert(salt@ =~= key_salt());
    assert(label@ =~= key_label_front() + vstd::utf8::encode_utf8(cipher@));
    let out = hkdf_sha256(salt.as_slice(), psk, label.as_slice(), KEY_LEN);
    let key = array32(out.as_slice(), 0);
    assert(key@ =~= out@);
    key
}

/// The key that every peer of the band with the given secret can use.
pub fn derive_key(psk: &[u8]) -> (r: Key)
    ensures
        r@ == cipher_key_of(psk@, vstd::utf8::encode_utf8(BASELINE_CIPHER@)),
{
    derive_cipher_key(psk, BASELINE_CIPHER)
}

/// The nonce of the packet numbered `seq`.
pub fn nonce_from_seq(seq: u64) -> (r: [u8; 12])
    ensures
        r@ == nonce_of(seq),
{
    let mut bytes: Vec<u8> = Vec::new();
    bytes.push(0);
    bytes.push(0);
    bytes.push(0);
    bytes.push(0);
    push_be64(&mut bytes, seq);
    let r = array12(bytes.as_slice(), 0);
    assert(r@ =~= nonce_of(seq));
    r
}

/// What a packet authenticates besides its content.
pub fn build_aad(channel_type: u8, channel_id: u16) -> (r: [u8; 3])
    ensures
        r@ == aad_of(channel_type, channel_id),
{
    let r: [u8; 3] = [channel_type, (channel_id / 0x100) as u8, (channel_id % 0x100) as u8];
    assert(r@ =~= aad_of(channel_type, channel_id));
    r
}

/// Seals a message under the number `seq`; `decrypt` gives it back under the same key, number
/// and associated data.
pub fn encrypt(key: &Key, seq: u64, aad: &[u8; 3], plaintext: &[u8]) -> (r: Result<
    Vec<u8>,
    CryptoError,
>)
    ensures
        r is Ok <==> plaintext@.len() <= MAX_SEALED,
        r matches Ok(ct) ==> {
            &&& ct@ == primitives::sealed(key@, nonce_of(seq), aad@, plaintext@)
            &&& ct@.len() == plaintext@.len() + TAG_LEN
            &&& primitives::opened(key@, nonce_of(seq), aad@, ct@) == Some(plaintext@)
        },
        r matches Err(e) ==> e is Encrypt,
{
    if plaintext.len() as u64 > MAX_SEALED {
        return Err(CryptoError::Encrypt);
    }
    let nonce = nonce_from_seq(seq);
    Ok(seal(key, &nonce, aad.as_slice(), plaintext))
}

/// What `decrypt` makes of a sealed message: nothing where it is longer than any message that
/// can be sealed.
pub open spec fn decrypted(key: Seq<u8>, seq: u64, aad: Seq<u8>, ct: Seq<u8>) -> Option<Seq<u8>> {
    if ct.len() > MAX_SEALED + TAG_LEN {
        None
    } else {
        primitives::opened(key, nonce_of(seq), aad, ct)
    }
}

/// Opens what was sealed under the number `seq`; only what `encrypt` gives under the same key,
/// number and associated data opens.
pub fn decrypt(key: &Key, seq: u64, aad: &[u8; 3], ciphertext: &[u8]) -> (r: Result<
    Vec<u8>,
    CryptoError,
>)
    ensures
        r is Ok <==> decrypted(key@, seq, aad@, ciphertext@) is Some,
        r matches Ok(pt) ==> {
            &&& decrypted(key@, seq, aad@, ciphertext@) == Some(pt@)
            &&& ciphertext@ == primitives::sealed(key@, nonce_of(seq), aad@, pt@)
            &&& ciphertext@.len() == pt@.len() + TAG_LEN
        },
        r matches Err(e) ==> e is Decrypt,
{
    if ciphertext.len() as u64 > MAX_SEALED + TAG_LEN as u64 {
        return Err(CryptoError::Decrypt);
    }
    let nonce = nonce_from_seq(seq);
    match open(key, &nonce, aad.as_slice(), ciphertext) {
        Some(pt) => Ok(pt),
        None => Err(CryptoError::Decrypt),
    }
}

/// Whether a list names a cipher.
pub open spec fn lists(ciphers: Seq<String>, cipher: Seq<char>) -> bool {
    exists|i: int| 0 <= i < ciphers.len() && (#[trigger] ciphers[i])@ == cipher
}

/// Whether the responder can be spoken to in a cipher: it lists it, or all peers speak it.
pub open spec fn speaks(responder: Seq<String>, cipher: Seq<char>) -> bool {
    cipher == BASELINE_CIPHER@ || lists(responder, cipher)
}

/// The first of the initiator's ciphers, from the one at `from` on, that the responder speaks;
/// the one that all peers speak if there is none.
pub open spec fn agreed(initiator: Seq<String>, responder: Seq<String>, from: int) -> Seq<char>
    decreases initiator.len() - from,
{
    if from >= initiator.len() {
        BASELINE_CIPHER@
    } else if speaks(responder, initiator[from]@) {
        initiator[from]@
    } else {
        agreed(initiator, responder, from + 1)
    }
}

/// The cipher that two peers agree on is one that the responder speaks, and one that the
/// initiator named unless it is the one that all peers speak.
pub proof fn lemma_agreed_is_spoken(initiator: Seq<String>, responder: Seq<String>, from: int)
    requires
        0 <= from,
    ensures
        speaks(responder, agreed(initiator, responder, from)),
        speaks(initiator, agreed(initiator, responder, from)),
    decreases initiator.len() - from,
{
    if from < initiator.len() && !speaks(responder, initiator[from]@) {
        lemma_agreed_is_spoken(initiator, responder, from + 1);
    }
}

/// The cipher that two peers agree on is the first that the initiator names of those that both
/// speak: every one that it names before is another, and not on the responder's list. It is the
/// one that all peers speak where there is none.
pub proof fn lemma_agreed_is_preferred(initiator: Seq<String>, responder: Seq<String>)
    ensures
        ({
            let cipher = agreed(initiator, responder, 0);
            ||| exists|i: int|
                #![trigger initiator[i]]
                {
                    &&& 0 <= i < initiator.len()
                    &&& initiator[i]@ == cipher
                    &&& cipher == BASELINE_CIPHER@ || exists|k: int|
                        0 <= k < responder.len() && (#[trigger] responder[k])@ == cipher
                    &&& forall|j: int|
                        0 <= j < i ==> (#[trigger] initiator[j])@ != BASELINE_CIPHER@ && forall|
                            k: int,
                        |
                            0 <= k < responder.len() ==> (#[trigger] responder[k])@ != initiator[j]@
                }
            ||| {
                &&& cipher == BASELINE_CIPHER@
                &&& forall|j: int, k: int|
                    0 <= j < initiator.len() && 0 <= k < responder.len() ==> (#[trigger] responder[k])@
                        != (#[trigger] initiator[j])@
            }
        }),
{
    lemma_agreed_from(initiator, responder, 0);
}

proof fn lemma_agreed_from(initiator: Seq<String>, responder: Seq<String>, from: int)
    requires
        0 <= from,
        forall|j: int|
            0 <= j < from && j < initiator.len() ==> !speaks(
                responder,
                (#[trigger] initiator[j])@,
            ),
    ensures
        ({
            let cipher = agreed(initiator, responder, from);
            ||| exists|i: int|
                #![trigger initiator[i]]
                {
                    &&& 0 <= i < initiator.len()
                    &&& initiator[i]@ == cipher
                    &&& speaks(responder, cipher)
                    &&& forall|j: int|
                        0 <= j < i ==> !speaks(responder, (#[trigger] initiator[j])@)
                }
            ||| {
                &&& cipher == BASELINE_CIPHER@
                &&& forall|j: int|
                    0 <= j < initiator.len() ==> !speaks(responder, (#[trigger] initiator[j])@)
            }
        }),
    decreases initiator.len() - from,
{
    if from < initiator.len() {
        if speaks(responder, initiator[from]@) {
            assert(initiator[from]@ == agreed(initiator, responder, from));
        } else {
            lemma_agreed_from(initiator, responder, from + 1);
        }
    }
}

fn names(ciphers: &[String], cipher: &String) -> (r: bool)
    ensures
        r == lists(ciphers@, cipher@),
{
    let mut i: usize = 0;
    while i < ciphers.len()
        invariant
            i <= ciphers@.len(),
            forall|k: int| 0 <= k < i ==> (#[trigger] ciphers@[k])@ != cipher@,
        decreases ciphers@.len() - i,
    {
        if ciphers[i] == *cipher {
            return true;
        }
        i = i + 1;
    }
    false
}

/// The cipher that an initiator and a responder agree on: the first of the initiator's that
/// the responder speaks.
pub fn select_cipher(initiator: &[String], responder: &[String]) -> (r: String)
    ensures
        r@ == agreed(initiator@, responder@, 0),
{
    let baseline = BASELINE_CIPHER.to_owned();
    let mut i: usize = 0;
    while i < initiator.len()
        invariant
            i <= initiator@.len(),
            baseline@ == BASELINE_CIPHER@,
            agreed(initiator@, responder@, 0) == agreed(initiator@, responder@, i as int),
        decreases initiator@.len() - i,
    {
        if initiator[i] == baseline || names(responder, &initiator[i]) {
            return initiator[i].clone();
        }
        i = i + 1;
    }
    baseline
}

/// A list that is made to name the cipher that all peers speak names it and all that it named, in
/// their order, with nothing else.
pub proof fn lemma_baseline_named(ciphers: Seq<Seq<char>>, cipher: Seq<char>)
    ensures
        with_baseline(ciphers).contains(cipher) <==> ciphers.contains(cipher) || cipher
            == BASELINE_CIPHER@,
        ciphers.is_prefix_of(with_baseline(ciphers)),
        with_baseline(with_baseline(ciphers)) == with_baseline(ciphers),
{
    let all = with_baseline(ciphers);
    if ciphers.contains(cipher) {
        assert(all[ciphers.index_of(cipher)] == cipher);
    }
    if !ciphers.contains(BASELINE_CIPHER@) {
        assert(all[all.len() - 1] == BASELINE_CIPHER@);
        if all.contains(cipher) {
            let i = all.index_of(cipher);
            if i < ciphers.len() {
                assert(ciphers[i] == cipher);
            }
        }
    }
}

/// A list of ciphers that names the one that all peers speak: where it does not, that one
/// comes last.
pub open spec fn with_baseline(ciphers: Seq<Seq<char>>) -> Seq<Seq<char>> {
    if ciphers.contains(BASELINE_CIPHER@) {
        ciphers
    } else {
        ciphers.push(BASELINE_CIPHER@)
    }
}

} // verus!
