//! The handshake of a session, and the sealing of its records and datagrams.
use crate::octets::{
    self, array12, array16, array32, copy_range, get_le16, push_all, push_le16, push_le32,
    push_le64,
};
use crate::primitives::{
    self, hkdf_sha256, hmac_sha256, open, random_bytes, seal, x25519, MAX_SEALED,
};
use vstd::prelude::*;

verus! {

/// The version of the handshake.
pub const VERSION: u8 = 1;

/// The bytes of a handshake nonce.
pub const NONCE16: usize = 16;

/// The bytes of a key.
pub const KEY: usize = 32;

/// The bytes of an authentication tag.
pub const TAG: usize = 16;

/// The bytes of a confirmation.
pub const CONFIRM: usize = 32;

/// The bytes of the client's first message.
pub const HELLO1_LEN: usize = 51;

/// The bytes of the host's answer.
pub const HELLO2_LEN: usize = 82;

/// Why a handshake failed.
#[derive(Debug, Clone, Copy, PartialEq, Eq, Structural)]
pub enum HsError {
    /// The message is of another version.
    BadVersion,
    /// The message is shorter than it must be.
    ShortMessage,
    /// The peer does not hold the same secret, or the exchange was tampered with or replayed.
    BadConfirm,
}

/// The keys of a session, as one of its ends uses them.
#[derive(Clone, Debug)]
pub struct Session {
    pub k_tcp_tx: [u8; 32],
    pub k_tcp_rx: [u8; 32],
    pub k_udp_tx: [u8; 32],
    pub k_udp_rx: [u8; 32],
    pub session_id: [u8; 16],
}

/// The keys of a session, by the direction that they are for.
#[verifier::ext_equal]
pub struct KeysModel {
    pub c2h: Seq<u8>,
    pub h2c: Seq<u8>,
    pub udp_c2h: Seq<u8>,
    pub udp_h2c: Seq<u8>,
    pub session_id: Seq<u8>,
}

impl Session {
    /// Whether these are the keys as the client uses them.
    pub open spec fn is_client(self, keys: KeysModel) -> bool {
        &&& self.k_tcp_tx@ == keys.c2h
        &&& self.k_tcp_rx@ == keys.h2c
        &&& self.k_udp_tx@ == keys.udp_c2h
        &&& self.k_udp_rx@ == keys.udp_h2c
        &&& self.session_id@ == keys.session_id
    }

    /// Whether these are the keys as the host uses them.
    pub open spec fn is_host(self, keys: KeysModel) -> bool {
        &&& self.k_tcp_tx@ == keys.h2c
        &&& self.k_tcp_rx@ == keys.c2h
        &&& self.k_udp_tx@ == keys.udp_h2c
        &&& self.k_udp_rx@ == keys.udp_c2h
        &&& self.session_id@ == keys.session_id
    }
}

/// The text that separates the keys of a session from those of everything else.
pub open spec fn session_label() -> Seq<u8> {
    seq![0x74u8, 0x65, 0x6c, 0x65, 0x73, 0x74, 0x68, 0x65, 0x74, 0x65, 0x2d, 0x76, 0x31]
}

/// The text that the host's confirmation covers, `host-confirm`.
pub open spec fn host_label() -> Seq<u8> {
    seq![0x68u8, 0x6f, 0x73, 0x74, 0x2d, 0x63, 0x6f, 0x6e, 0x66, 0x69, 0x72, 0x6d]
}

/// The text that the client's confirmation covers, `client-confirm`.
pub open spec fn client_label() -> Seq<u8> {
    seq![0x63u8, 0x6c, 0x69, 0x65, 0x6e, 0x74, 0x2d, 0x63, 0x6f, 0x6e, 0x66, 0x69, 0x72, 0x6d]
}

/// What both ends have said: the version, their public keys, their nonces.
pub open spec fn transcript_of(ec: Seq<u8>, eh: Seq<u8>, nc: Seq<u8>, nh: Seq<u8>) -> Seq<u8> {
    seq![VERSION] + ec + eh + nc + nh
}

/// The keys of a session, from the shared secret, the band's secret and the transcript.
pub open spec fn keys_of(dh: Seq<u8>, psk: Seq<u8>, transcript: Seq<u8>) -> KeysModel {
    let out = primitives::hkdf_sha256_of(transcript, dh + psk, session_label(), 144);
    KeysModel {
        c2h: out.subrange(0, 32),
        h2c: out.subrange(32, 64),
        udp_c2h: out.subrange(64, 96),
        udp_h2c: out.subrange(96, 128),
        session_id: out.subrange(128, 144),
    }
}

/// The proof that one end holds the keys of a session.
pub open spec fn confirm_of(key: Seq<u8>, label: Seq<u8>, transcript: Seq<u8>) -> Seq<u8> {
    primitives::hmac_sha256_of(key, label + transcript)@
}

/// Derives the keys of a session.
fn derive(dh: &[u8], psk: &[u8; 32], transcript: &[u8]) -> (r: (
    [u8; 32],
    [u8; 32],
    [u8; 32],
    [u8; 32],
    [u8; 16],
))
    ensures
        ({
            let keys = keys_of(dh@, psk@, transcript@);
            &&& r.0@ == keys.c2h
            &&& r.1@ == keys.h2c
            &&& r.2@ == keys.udp_c2h
            &&& r.3@ == keys.udp_h2c
            &&& r.4@ == keys.session_id
        }),
{
    let mut material: Vec<u8> = Vec::new();
    push_all(&mut material, dh);
    push_all(&mut material, psk.as_slice());
    assert(material@ =~= dh@ + psk@);
    let label: [u8; 13] = [
        0x74, 0x65, 0x6c, 0x65, 0x73, 0x74, 0x68, 0x65, 0x74, 0x65, 0x2d, 0x76, 0x31,
    ];
    assert(label@ =~= session_label());
    let out = hkdf_sha256(transcript, material.as_slice(), label.as_slice(), 144);
    (
        array32(out.as_slice(), 0),
        array32(out.as_slice(), 32),
        array32(out.as_slice(), 64),
        array32(out.as_slice(), 96),
        array16(out.as_slice(), 128),
    )
}

/// The proof that this end holds the keys of a session.
fn confirm(key: &[u8; 32], label: &[u8], transcript: &[u8]) -> (r: [u8; 32])
    ensures
        r@ == confirm_of(key@, label@, transcript@),
{
    let mut covered: Vec<u8> = Vec::new();
    push_all(&mut covered, label);
    push_all(&mut covered, transcript);
    assert(covered@ =~= label@ + transcript@);
    hmac_sha256(key.as_slice(), covered.as_slice())
}

fn host_confirm(key: &[u8; 32], transcript: &[u8]) -> (r: [u8; 32])
    ensures
        r@ == confirm_of(key@, host_label(), transcript@),
{
    let label: [u8; 12] = [0x68, 0x6f, 0x73, 0x74, 0x2d, 0x63, 0x6f, 0x6e, 0x66, 0x69, 0x72, 0x6d];
    assert(label@ =~= host_label());
    confirm(key, label.as_slice(), transcript)
}

fn client_confirm(key: &[u8; 32], transcript: &[u8]) -> (r: [u8; 32])
    ensures
        r@ == confirm_of(key@, client_label(), transcript@),
{
    let label: [u8; 14] = [
        0x63, 0x6c, 0x69, 0x65, 0x6e, 0x74, 0x2d, 0x63, 0x6f, 0x6e, 0x66, 0x69, 0x72, 0x6d,
    ];
    assert(label@ =~= client_label());
    confirm(key, label.as_slice(), transcript)
}

/// What both ends have said, as bytes.
pub fn transcript(ec: &[u8; 32], eh: &[u8; 32], nc: &[u8; 16], nh: &[u8; 16]) -> (t: Vec<u8>)
    ensures
        t@ == transcript_of(ec@, eh@, nc@, nh@),
{
    let mut t: Vec<u8> = Vec::new();
    t.push(VERSION);
    push_all(&mut t, ec.as_slice());
    push_all(&mut t, eh.as_slice());
    push_all(&mut t, nc.as_slice());
    push_all(&mut t, nh.as_slice());
    assert(t@ =~= transcript_of(ec@, eh@, nc@, nh@));
    t
}

/// Whether two byte strings are equal; how long it takes depends on their lengths alone.
pub fn ct_eq(a: &[u8], b: &[u8]) -> (r: bool)
    ensures
        r == (a@ == b@),
{
    if a.len() != b.len() {
        return false;
    }
    let mut d: u8 = 0;
    let mut i: usize = 0;
    assert(a@.take(0) =~= b@.take(0));
    while i < a.len()
        invariant
            i <= a@.len() == b@.len(),
            d == 0 <==> a@.take(i as int) == b@.take(i as int),
        decreases a@.len() - i,
    {
        let (x, y, before): (u8, u8, u8) = (a[i], b[i], d);
        d = d | (x ^ y);
        assert((before | (x ^ y)) == 0 <==> before == 0 && x == y) by (bit_vector);
        proof {
            assert(a@.take(i + 1) =~= a@.take(i as int).push(a@[i as int]));
            assert(b@.take(i + 1) =~= b@.take(i as int).push(b@[i as int]));
            if a@.take(i + 1) == b@.take(i + 1) {
                assert(a@.take(i + 1).drop_last() =~= a@.take(i as int));
                assert(b@.take(i + 1).drop_last() =~= b@.take(i as int));
                assert(a@.take(i + 1)[i as int] == b@.take(i + 1)[i as int]);
            }
        }
        i = i + 1;
    }
    assert(a@.take(i as int) =~= a@);
    assert(b@.take(i as int) =~= b@);
    d == 0
}

fn basepoint_bytes() -> (r: [u8; 32])
    ensures
        r@ == primitives::basepoint(),
{
    let mut r: [u8; 32] = [0u8; 32];
    r[0] = 9;
    assert(r@ =~= primitives::basepoint());
    r
}

/// The client's half of a handshake: its secret, the public key of it, its nonce, and the
/// secret of the band.
pub struct ClientHandshake {
    secret: [u8; 32],
    ec_pub: [u8; 32],
    nc: [u8; 16],
    psk: [u8; 32],
}

/// What the client's half of a handshake holds.
#[verifier::ext_equal]
pub struct ClientModel {
    pub secret: Seq<u8>,
    pub ec: Seq<u8>,
    pub nc: Seq<u8>,
    pub psk: Seq<u8>,
}

impl ClientModel {
    /// Whether the parts have their sizes, and the public key is that of the secret.
    pub open spec fn wf(self) -> bool {
        &&& self.secret.len() == 32
        &&& self.ec.len() == 32
        &&& self.nc.len() == 16
        &&& self.psk.len() == 32
        &&& primitives::public_of(self.secret, self.ec)
    }
}

impl View for ClientHandshake {
    type V = ClientModel;

    closed spec fn view(&self) -> ClientModel {
        ClientModel {
            secret: self.secret@,
            ec: self.ec_pub@,
            nc: self.nc@,
            psk: self.psk@,
        }
    }
}

/// The client's first message: the version, its public key, its nonce, its port.
pub open spec fn hello1_bytes(c: ClientModel, udp_port: u16) -> Seq<u8> {
    seq![VERSION] + c.ec + c.nc + octets::le16(udp_port)
}

/// The transcript as the client has it once the host's answer came.
pub open spec fn client_transcript(c: ClientModel, hello2: Seq<u8>) -> Seq<u8> {
    transcript_of(c.ec, hello2.subrange(0, 32), c.nc, hello2.subrange(32, 48))
}

/// The keys that the client derives from the host's answer.
pub open spec fn client_keys(c: ClientModel, hello2: Seq<u8>) -> KeysModel {
    keys_of(
        primitives::x25519_of(c.secret, hello2.subrange(0, 32))@,
        c.psk,
        client_transcript(c, hello2),
    )
}

/// Why the client refuses the host's answer, if it does.
pub open spec fn client_error(c: ClientModel, hello2: Seq<u8>) -> Option<HsError> {
    if hello2.len() < HELLO2_LEN {
        Some(HsError::ShortMessage)
    } else if hello2.subrange(48, 80) != confirm_of(
        client_keys(c, hello2).h2c,
        host_label(),
        client_transcript(c, hello2),
    ) {
        Some(HsError::BadConfirm)
    } else {
        None
    }
}

/// The client's proof that it holds the keys.
pub open spec fn client_proof(c: ClientModel, hello2: Seq<u8>) -> Seq<u8> {
    confirm_of(client_keys(c, hello2).c2h, client_label(), client_transcript(c, hello2))
}

impl ClientHandshake {
    /// Starts a handshake with a secret and a nonce from the system's random number generator.
    pub fn new(psk: [u8; 32]) -> (r: Self)
        ensures
            r@.wf(),
            r@.psk == psk@,
    {
        let secret = random_bytes(32);
        let nonce = random_bytes(16);
        Self::from_parts(psk, array32(secret.as_slice(), 0), array16(nonce.as_slice(), 0))
    }

    /// Starts a handshake with the given secret and nonce.
    pub fn from_parts(psk: [u8; 32], secret: [u8; 32], nonce: [u8; 16]) -> (r: Self)
        ensures
            r@.wf(),
            r@ == (ClientModel {
                secret: secret@,
                ec: primitives::x25519_of(secret@, primitives::basepoint())@,
                nc: nonce@,
                psk: psk@,
            }),
    {
        let base = basepoint_bytes();
        let ec_pub = x25519(&secret, &base);
        ClientHandshake { secret, ec_pub, nc: nonce, psk }
    }

    /// The client's first message.
    pub fn hello1(&self, udp_port: u16) -> (m: Vec<u8>)
        ensures
            m@ == hello1_bytes(self@, udp_port),
    {
        let mut m: Vec<u8> = Vec::new();
        m.push(VERSION);
        push_all(&mut m, self.ec_pub.as_slice());
        push_all(&mut m, self.nc.as_slice());
        push_le16(&mut m, udp_port);
        assert(m@ =~= hello1_bytes(self@, udp_port));
        m
    }

    /// Takes the host's answer: the session, the host's port and the client's last message,
    /// where the host has proved that it holds the band's secret.
    pub fn recv_hello2(self, hello2: &[u8]) -> (r: Result<(Session, u16, Vec<u8>), HsError>)
        ensures
            r is Ok <==> client_error(self@, hello2@) is None,
            r matches Ok((session, port, proof3)) ==> {
                &&& session.is_client(client_keys(self@, hello2@))
                &&& port == octets::le16_at(hello2@, 80)
                &&& proof3@ == client_proof(self@, hello2@)
            },
            r matches Err(e) ==> client_error(self@, hello2@) == Some(e),
    {
        if hello2.len() < HELLO2_LEN {
            return Err(HsError::ShortMessage);
        }
        let eh = array32(hello2, 0);
        let nh = array16(hello2, 32);
        let claimed = copy_range(hello2, 48, 80);
        let port = get_le16(hello2, 80);
        let dh = x25519(&self.secret, &eh);
        let t = transcript(&self.ec_pub, &eh, &self.nc, &nh);
        let (c2h, h2c, udp_c2h, udp_h2c, session_id) = derive(
            dh.as_slice(),
            &self.psk,
            t.as_slice(),
        );
        let expected = host_confirm(&h2c, t.as_slice());
        if !ct_eq(expected.as_slice(), claimed.as_slice()) {
            return Err(HsError::BadConfirm);
        }
        let answer = client_confirm(&c2h, t.as_slice());
        let session = Session {
            k_tcp_tx: c2h,
            k_tcp_rx: h2c,
            k_udp_tx: udp_c2h,
            k_udp_rx: udp_h2c,
            session_id,
        };
        Ok((session, port, vstd::slice::slice_to_vec(answer.as_slice())))
    }
}

/// What the host waits for: the client's proof over this transcript, under this key.
pub struct PendingConfirm {
    k_c2h: [u8; 32],
    transcript: Vec<u8>,
}

impl PendingConfirm {
    /// The key of the proof.
    pub closed spec fn key(self) -> Seq<u8> {
        self.k_c2h@
    }

    /// What the proof covers.
    pub closed spec fn covered(self) -> Seq<u8> {
        self.transcript@
    }

    /// Checks the client's last message: the proof, and whatever follows it.
    pub fn verify(&self, confirm3: &[u8]) -> (r: Result<(), HsError>)
        ensures
            r is Ok <==> proof_error(self.key(), self.covered(), confirm3@) is None,
            r matches Err(e) ==> proof_error(self.key(), self.covered(), confirm3@) == Some(e),
    {
        if confirm3.len() < CONFIRM {
            return Err(HsError::ShortMessage);
        }
        let expected = client_confirm(&self.k_c2h, self.transcript.as_slice());
        let claimed = copy_range(confirm3, 0, CONFIRM);
        assert(claimed@ =~= confirm3@.take(32));
        if ct_eq(expected.as_slice(), claimed.as_slice()) {
            Ok(())
        } else {
            Err(HsError::BadConfirm)
        }
    }
}

/// Why the host refuses the client's last message, if it does.
pub open spec fn proof_error(key: Seq<u8>, covered: Seq<u8>, confirm3: Seq<u8>) -> Option<HsError> {
    if confirm3.len() < CONFIRM {
        Some(HsError::ShortMessage)
    } else if confirm3.take(32) != confirm_of(key, client_label(), covered) {
        Some(HsError::BadConfirm)
    } else {
        None
    }
}

/// Why the host refuses the client's first message, if it does.
pub open spec fn hello1_error(hello1: Seq<u8>) -> Option<HsError> {
    if hello1.len() == 0 || hello1[0] != VERSION {
        Some(HsError::BadVersion)
    } else if hello1.len() < HELLO1_LEN {
        Some(HsError::ShortMessage)
    } else {
        None
    }
}

/// The public key of a secret.
pub open spec fn public_key(secret: Seq<u8>) -> Seq<u8> {
    primitives::x25519_of(secret, primitives::basepoint())@
}

/// The transcript as the host has it once it has chosen a secret and a nonce.
pub open spec fn host_transcript(hello1: Seq<u8>, secret: Seq<u8>, nh: Seq<u8>) -> Seq<u8> {
    transcript_of(hello1.subrange(1, 33), public_key(secret), hello1.subrange(33, 49), nh)
}

/// The keys that the host derives from the client's first message.
pub open spec fn host_keys(hello1: Seq<u8>, psk: Seq<u8>, secret: Seq<u8>, nh: Seq<u8>) -> KeysModel {
    keys_of(
        primitives::x25519_of(secret, hello1.subrange(1, 33))@,
        psk,
        host_transcript(hello1, secret, nh),
    )
}

/// The host's answer: its public key, its nonce, its proof, its port.
pub open spec fn hello2_bytes(
    hello1: Seq<u8>,
    psk: Seq<u8>,
    udp_port: u16,
    secret: Seq<u8>,
    nh: Seq<u8>,
) -> Seq<u8> {
    public_key(secret) + nh + confirm_of(
        host_keys(hello1, psk, secret, nh).h2c,
        host_label(),
        host_transcript(hello1, secret, nh),
    ) + octets::le16(udp_port)
}

/// Whether the host, having chosen a secret and a nonce, answers as it should.
pub open spec fn host_answers(
    hello1: Seq<u8>,
    psk: Seq<u8>,
    udp_port: u16,
    secret: Seq<u8>,
    nh: Seq<u8>,
    answer: (Vec<u8>, Session, PendingConfirm, u16),
) -> bool {
    let keys = host_keys(hello1, psk, secret, nh);
    &&& answer.0@ == hello2_bytes(hello1, psk, udp_port, secret, nh)
    &&& answer.1.is_host(keys)
    &&& answer.2.key() == keys.c2h
    &&& answer.2.covered() == host_transcript(hello1, secret, nh)
    &&& answer.3 == octets::le16_at(hello1, 49)
}

/// Answers the client's first message with the given secret and nonce: the answer, the
/// session, the check of the client's last message, and the client's port.
pub fn host_respond_with(
    hello1: &[u8],
    psk: [u8; 32],
    host_udp_port: u16,
    secret: [u8; 32],
    nonce: [u8; 16],
) -> (r: Result<(Vec<u8>, Session, PendingConfirm, u16), HsError>)
    ensures
        r is Ok <==> hello1_error(hello1@) is None,
        r matches Ok(answer) ==> host_answers(
            hello1@,
            psk@,
            host_udp_port,
            secret@,
            nonce@,
            answer,
        ),
        r matches Err(e) ==> hello1_error(hello1@) == Some(e),
{
    if hello1.len() == 0 || hello1[0] != VERSION {
        return Err(HsError::BadVersion);
    }
    if hello1.len() < HELLO1_LEN {
        return Err(HsError::ShortMessage);
    }
    let ec = array32(hello1, 1);
    let nc = array16(hello1, 33);
    let client_port = get_le16(hello1, 49);
    let base = basepoint_bytes();
    let eh = x25519(&secret, &base);
    let dh = x25519(&secret, &ec);
    let t = transcript(&ec, &eh, &nc, &nonce);
    let (c2h, h2c, udp_c2h, udp_h2c, session_id) = derive(dh.as_slice(), &psk, t.as_slice());
    let proof2 = host_confirm(&h2c, t.as_slice());
    let mut hello2: Vec<u8> = Vec::new();
    push_all(&mut hello2, eh.as_slice());
    push_all(&mut hello2, nonce.as_slice());
    push_all(&mut hello2, proof2.as_slice());
    push_le16(&mut hello2, host_udp_port);
    assert(hello2@ =~= hello2_bytes(hello1@, psk@, host_udp_port, secret@, nonce@));
    let session = Session {
        k_tcp_tx: h2c,
        k_tcp_rx: c2h,
        k_udp_tx: udp_h2c,
        k_udp_rx: udp_c2h,
        session_id,
    };
    Ok((hello2, session, PendingConfirm { k_c2h: c2h, transcript: t }, client_port))
}

/// Answers the client's first message with a secret and a nonce from the system's random
/// number generator.
pub fn host_respond(hello1: &[u8], psk: [u8; 32], host_udp_port: u16) -> (r: Result<
    (Vec<u8>, Session, PendingConfirm, u16),
    HsError,
>)
    ensures
        r is Ok <==> hello1_error(hello1@) is None,
        r matches Ok(answer) ==> exists|secret: Seq<u8>, nh: Seq<u8>|
            secret.len() == 32 && nh.len() == 16 && #[trigger] host_answers(
                hello1@,
                psk@,
                host_udp_port,
                secret,
                nh,
                answer,
            ),
        r matches Err(e) ==> hello1_error(hello1@) == Some(e),
{
    let secret = random_bytes(32);
    let nonce = random_bytes(16);
    let (secret, nonce) = (array32(secret.as_slice(), 0), array16(nonce.as_slice(), 0));
    let r = host_respond_with(hello1, psk, host_udp_port, secret, nonce);
    proof {
        if r is Ok {
            assert(host_answers(hello1@, psk@, host_udp_port, secret@, nonce@, r->Ok_0));
        }
    }
    r
}

/// A client and a host that hold the same secret of the band complete the handshake: each
/// accepts what the other proves, both derive the same keys, and each learns the other's port.
pub proof fn lemma_same_secret_agrees(
    c: ClientModel,
    client_port: u16,
    host_port: u16,
    host_secret: Seq<u8>,
    nh: Seq<u8>,
)
    requires
        c.wf(),
        host_secret.len() == 32,
        nh.len() == 16,
    ensures
        ({
            let hello1 = hello1_bytes(c, client_port);
            let hello2 = hello2_bytes(hello1, c.psk, host_port, host_secret, nh);
            let keys = host_keys(hello1, c.psk, host_secret, nh);
            &&& hello1_error(hello1) is None
            &&& octets::le16_at(hello1, 49) == client_port
            &&& client_error(c, hello2) is None
            &&& octets::le16_at(hello2, 80) == host_port
            &&& client_keys(c, hello2) == keys
            &&& proof_error(
                keys.c2h,
                host_transcript(hello1, host_secret, nh),
                client_proof(c, hello2),
            ) is None
        }),
{
    let hello1 = hello1_bytes(c, client_port);
    let hello2 = hello2_bytes(hello1, c.psk, host_port, host_secret, nh);
    assert(hello1.subrange(1, 33) =~= c.ec);
    assert(hello1.subrange(33, 49) =~= c.nc);
    assert(hello1.subrange(49, 51) =~= octets::le16(client_port));
    octets::lemma_le16_at(hello1, 49, client_port);
    let eh = public_key(host_secret);
    let code = confirm_of(
        host_keys(hello1, c.psk, host_secret, nh).h2c,
        host_label(),
        host_transcript(hello1, host_secret, nh),
    );
    assert(eh.len() == 32 && code.len() == 32);
    assert(hello2.subrange(0, 32) =~= eh);
    assert(hello2.subrange(32, 48) =~= nh);
    assert(hello2.subrange(48, 80) =~= code);
    assert(hello2.subrange(80, 82) =~= octets::le16(host_port));
    octets::lemma_le16_at(hello2, 80, host_port);
    assert(primitives::x25519_of(host_secret, c.ec) == primitives::x25519_of(c.secret, eh));
    let answer = client_proof(c, hello2);
    assert(answer.len() == 32);
    assert(answer.take(32) =~= answer);
}

/// What both ends have said tells exchanges apart: two that differ in either public key or either
/// nonce have different transcripts.
pub proof fn lemma_transcripts_tell_apart(
    ec_a: Seq<u8>,
    eh_a: Seq<u8>,
    nc_a: Seq<u8>,
    nh_a: Seq<u8>,
    ec_b: Seq<u8>,
    eh_b: Seq<u8>,
    nc_b: Seq<u8>,
    nh_b: Seq<u8>,
)
    requires
        ec_a.len() == 32,
        eh_a.len() == 32,
        nc_a.len() == 16,
        nh_a.len() == 16,
        ec_b.len() == 32,
        eh_b.len() == 32,
        nc_b.len() == 16,
        nh_b.len() == 16,
        transcript_of(ec_a, eh_a, nc_a, nh_a) == transcript_of(ec_b, eh_b, nc_b, nh_b),
    ensures
        ec_a == ec_b,
        eh_a == eh_b,
        nc_a == nc_b,
        nh_a == nh_b,
{
    let a = transcript_of(ec_a, eh_a, nc_a, nh_a);
    let b = transcript_of(ec_b, eh_b, nc_b, nh_b);
    assert(a.subrange(1, 33) =~= ec_a && b.subrange(1, 33) =~= ec_b);
    assert(a.subrange(33, 65) =~= eh_a && b.subrange(33, 65) =~= eh_b);
    assert(a.subrange(65, 81) =~= nc_a && b.subrange(65, 81) =~= nc_b);
    assert(a.subrange(81, 97) =~= nh_a && b.subrange(81, 97) =~= nh_b);
}

/// The proof of one end is no proof of the other's: whatever each covers, the two are not made over
/// the same bytes.
pub proof fn lemma_proofs_tell_ends_apart(a: Seq<u8>, b: Seq<u8>)
    ensures
        host_label() + a != client_label() + b,
{
    assert((host_label() + a)[0] == 0x68);
    assert((client_label() + b)[0] == 0x63);
}

/// The keys of a session are parts of what is derived from the transcript, the shared secret and the
/// band's secret, that do not overlap, and make all of it.
pub proof fn lemma_keys_apart(dh: Seq<u8>, psk: Seq<u8>, transcript: Seq<u8>)
    requires
        primitives::hkdf_sha256_of(transcript, dh + psk, session_label(), 144).len() == 144,
    ensures
        ({
            let keys = keys_of(dh, psk, transcript);
            &&& keys.c2h + keys.h2c + keys.udp_c2h + keys.udp_h2c + keys.session_id
                == primitives::hkdf_sha256_of(transcript, dh + psk, session_label(), 144)
            &&& keys.c2h.len() == 32
            &&& keys.h2c.len() == 32
            &&& keys.udp_c2h.len() == 32
            &&& keys.udp_h2c.len() == 32
            &&& keys.session_id.len() == 16
        }),
{
    let keys = keys_of(dh, psk, transcript);
    let out = primitives::hkdf_sha256_of(transcript, dh + psk, session_label(), 144);
    assert(keys.c2h + keys.h2c + keys.udp_c2h + keys.udp_h2c + keys.session_id =~= out);
}

/// What one end of a session sends with, the other receives with, and the session bears the same
/// id at both.
pub proof fn lemma_ends_mirror(client: Session, host: Session, keys: KeysModel)
    requires
        client.is_client(keys),
        host.is_host(keys),
    ensures
        client.k_tcp_tx@ == host.k_tcp_rx@,
        client.k_tcp_rx@ == host.k_tcp_tx@,
        client.k_udp_tx@ == host.k_udp_rx@,
        client.k_udp_rx@ == host.k_udp_tx@,
        client.session_id@ == host.session_id@,
{
}

/// A client accepts one proof for each public key and nonce of a host, and refuses every other; an
/// answer that is too short it refuses as such.
pub proof fn lemma_client_takes_one_proof(c: ClientModel, hello2: Seq<u8>, other: Seq<u8>)
    requires
        hello2.len() >= 82,
        other.len() >= 82,
        hello2.take(48) == other.take(48),
        client_error(c, hello2) is None,
    ensures
        client_error(c, other) is None <==> other.subrange(48, 80) == hello2.subrange(48, 80),
        client_error(c, other) is Some ==> client_error(c, other) == Some(HsError::BadConfirm),
        client_keys(c, other) == client_keys(c, hello2),
        client_error(c, other.take(81)) == Some(HsError::ShortMessage),
{
    assert(other.subrange(0, 32) =~= other.take(48).subrange(0, 32));
    assert(hello2.subrange(0, 32) =~= hello2.take(48).subrange(0, 32));
    assert(other.subrange(32, 48) =~= other.take(48).subrange(32, 48));
    assert(hello2.subrange(32, 48) =~= hello2.take(48).subrange(32, 48));
}

/// A host accepts one proof of a client, and refuses every other; one that is too short it refuses
/// as such.
pub proof fn lemma_host_takes_one_proof(
    key: Seq<u8>,
    covered: Seq<u8>,
    confirm3: Seq<u8>,
    other: Seq<u8>,
)
    requires
        proof_error(key, covered, confirm3) is None,
    ensures
        confirm3.len() >= 32,
        other.len() < 32 ==> proof_error(key, covered, other) == Some(HsError::ShortMessage),
        other.len() >= 32 ==> (proof_error(key, covered, other) is None <==> other.take(32)
            == confirm3.take(32)),
        other.len() >= 32 && other.take(32) != confirm3.take(32) ==> proof_error(
            key,
            covered,
            other,
        ) == Some(HsError::BadConfirm),
{
}

/// Which first messages a host takes: those of its version, with room for a key, a nonce and a
/// port. One of another version is refused as such, however short.
pub proof fn lemma_first_message_taken(hello1: Seq<u8>)
    ensures
        hello1_error(hello1) is None <==> hello1.len() >= 51 && hello1[0] == VERSION,
        hello1.len() == 0 || hello1[0] != VERSION ==> hello1_error(hello1) == Some(
            HsError::BadVersion,
        ),
        0 < hello1.len() < 51 && hello1[0] == VERSION ==> hello1_error(hello1) == Some(
            HsError::ShortMessage,
        ),
{
}

/// The key of one direction of the reliable stream, and how many records it has sealed or
/// opened.
pub struct RecordKey {
    key: [u8; 32],
    counter: u64,
}

/// What the key of a direction is, and the number of its next record.
#[verifier::ext_equal]
pub struct RecordModel {
    pub key: Seq<u8>,
    pub counter: u64,
}

impl View for RecordKey {
    type V = RecordModel;

    closed spec fn view(&self) -> RecordModel {
        RecordModel { key: self.key@, counter: self.counter }
    }
}

/// The nonce of the record with the given number.
pub open spec fn record_nonce(counter: u64) -> Seq<u8> {
    seq![0u8, 0u8, 0u8, 0u8] + octets::le64(counter)
}

/// The bytes of a message sealed as the next record.
pub open spec fn record_sealed(k: RecordModel, plaintext: Seq<u8>) -> Seq<u8> {
    primitives::sealed(k.key, record_nonce(k.counter), Seq::empty(), plaintext)
}

/// What the next record opens to.
pub open spec fn record_opened(k: RecordModel, ct: Seq<u8>) -> Option<Seq<u8>> {
    if ct.len() > MAX_SEALED + TAG {
        None
    } else {
        primitives::opened(k.key, record_nonce(k.counter), Seq::empty(), ct)
    }
}

/// The key after one more record.
pub open spec fn next_record(k: RecordModel) -> RecordModel {
    RecordModel { counter: (k.counter + 1) as u64, ..k }
}

/// The key after `n` more records.
pub open spec fn later_record(k: RecordModel, n: int) -> RecordModel {
    RecordModel { counter: (k.counter + n) as u64, ..k }
}

/// The key after it was given byte strings to open one after the other, and what those that
/// opened held: one that does not open leaves the key as it was.
pub open spec fn opened_all(k: RecordModel, cts: Seq<Seq<u8>>) -> (RecordModel, Seq<Seq<u8>>)
    decreases cts.len(),
{
    if cts.len() == 0 {
        (k, Seq::empty())
    } else {
        let before = opened_all(k, cts.drop_last());
        match record_opened(before.0, cts.last()) {
            Some(msg) => (next_record(before.0), before.1.push(msg)),
            None => before,
        }
    }
}

/// The records of messages, sealed one after the other, each behind the byte strings that are
/// offered before it.
pub open spec fn offered(k: RecordModel, msgs: Seq<Seq<u8>>, before: Seq<Seq<Seq<u8>>>) -> Seq<
    Seq<u8>,
>
    decreases msgs.len(),
{
    if msgs.len() == 0 {
        Seq::empty()
    } else {
        let n = msgs.len() - 1;
        (offered(k, msgs.drop_last(), before) + before[n]).push(
            record_sealed(later_record(k, n), msgs[n]),
        )
    }
}

proof fn lemma_refused(k: RecordModel, cts: Seq<Seq<u8>>, bad: Seq<Seq<u8>>, j: int)
    requires
        0 <= j <= bad.len(),
        forall|i: int|
            0 <= i < bad.len() ==> record_opened(opened_all(k, cts).0, #[trigger] bad[i]) is None,
    ensures
        opened_all(k, cts + bad.take(j)) == opened_all(k, cts),
    decreases j,
{
    if j == 0 {
        assert(cts + bad.take(0) =~= cts);
    } else {
        lemma_refused(k, cts, bad, j - 1);
        let all = cts + bad.take(j);
        assert(all.drop_last() =~= cts + bad.take(j - 1));
        assert(all.last() == bad[j - 1]);
    }
}

/// The records that one end sealed open in order to what they hold at an end with the same key,
/// whatever else it is offered in between that does not open, such as a record that was
/// changed on the way.
pub proof fn lemma_records_open_in_order(
    k: RecordModel,
    msgs: Seq<Seq<u8>>,
    before: Seq<Seq<Seq<u8>>>,
)
    requires
        k.counter + msgs.len() <= u64::MAX,
        before.len() == msgs.len(),
        forall|i: int|
            0 <= i < msgs.len() ==> record_opened(
                later_record(k, i),
                record_sealed(later_record(k, i), #[trigger] msgs[i]),
            ) == Some(msgs[i]),
        forall|i: int, j: int|
            0 <= i < before.len() && 0 <= j < before[i].len() ==> record_opened(
                later_record(k, i),
                #[trigger] before[i][j],
            ) is None,
    ensures
        opened_all(k, offered(k, msgs, before)) == (later_record(k, msgs.len() as int), msgs),
    decreases msgs.len(),
{
    if msgs.len() == 0 {
        assert(later_record(k, 0) == k);
        assert(opened_all(k, Seq::empty()).1 =~= msgs);
    } else {
        let n = msgs.len() - 1;
        let front = msgs.drop_last();
        let fewer = before.drop_last();
        assert forall|i: int| 0 <= i < front.len() implies record_opened(
            later_record(k, i),
            record_sealed(later_record(k, i), #[trigger] front[i]),
        ) == Some(front[i]) by {
            assert(front[i] == msgs[i]);
        }
        assert forall|i: int, j: int| 0 <= i < fewer.len() && 0 <= j < fewer[i].len() implies record_opened(
            later_record(k, i),
            #[trigger] fewer[i][j],
        ) is None by {
            assert(fewer[i][j] == before[i][j]);
        }
        lemma_records_open_in_order(k, front, fewer);
        lemma_offered_front(k, front, before, fewer);
        let cts = offered(k, front, before);
        assert(before[n].take(before[n].len() as int) =~= before[n]);
        lemma_refused(k, cts, before[n], before[n].len() as int);
        let ct = record_sealed(later_record(k, n), msgs[n]);
        let all = offered(k, msgs, before);
        assert(all.drop_last() =~= cts + before[n]);
        assert(all.last() == ct);
        assert(front.push(msgs[n]) =~= msgs);
        assert(next_record(later_record(k, n)) == later_record(k, n + 1));
    }
}

proof fn lemma_offered_front(
    k: RecordModel,
    msgs: Seq<Seq<u8>>,
    a: Seq<Seq<Seq<u8>>>,
    b: Seq<Seq<Seq<u8>>>,
)
    requires
        msgs.len() <= a.len(),
        msgs.len() <= b.len(),
        forall|i: int| 0 <= i < msgs.len() ==> a[i] == b[i],
    ensures
        offered(k, msgs, a) == offered(k, msgs, b),
    decreases msgs.len(),
{
    if msgs.len() > 0 {
        lemma_offered_front(k, msgs.drop_last(), a, b);
    }
}

/// Different records have different nonces.
pub proof fn lemma_record_nonces_distinct(a: u64, b: u64)
    requires
        record_nonce(a) == record_nonce(b),
    ensures
        a == b,
{
    assert(record_nonce(a).skip(4) =~= octets::le64(a));
    assert(record_nonce(b).skip(4) =~= octets::le64(b));
    octets::lemma_le64_injective(a, b);
}

fn record_nonce_bytes(counter: u64) -> (r: [u8; 12])
    ensures
        r@ == record_nonce(counter),
{
    let mut bytes: Vec<u8> = Vec::new();
    bytes.push(0);
    bytes.push(0);
    bytes.push(0);
    bytes.push(0);
    push_le64(&mut bytes, counter);
    let r = array12(bytes.as_slice(), 0);
    assert(r@ =~= record_nonce(counter));
    r
}

impl RecordKey {
    /// A key that has sealed or opened nothing yet.
    pub fn new(key: [u8; 32]) -> (r: Self)
        ensures
            r@ == (RecordModel { key: key@, counter: 0 }),
    {
        RecordKey { key, counter: 0 }
    }

    /// How many records went under this key.
    pub fn counter(&self) -> (r: u64)
        ensures
            r == self@.counter,
    {
        self.counter
    }

    /// Seals the next record. A receiver in step with this end opens it, and is in step again.
    pub fn seal(&mut self, plaintext: &[u8]) -> (ct: Vec<u8>)
        requires
            old(self)@.counter < u64::MAX,
            plaintext@.len() <= MAX_SEALED,
        ensures
            ct@ == record_sealed(old(self)@, plaintext@),
            ct@.len() == plaintext@.len() + TAG,
            final(self)@ == next_record(old(self)@),
            record_opened(old(self)@, ct@) == Some(plaintext@),
    {
        let nonce = record_nonce_bytes(self.counter);
        self.counter = self.counter + 1;
        let aad: Vec<u8> = Vec::new();
        assert(aad@ =~= Seq::empty());
        seal(&self.key, &nonce, aad.as_slice(), plaintext)
    }

    /// Opens the next record; one that does not open leaves the key as it was.
    pub fn open(&mut self, ct: &[u8]) -> (r: Option<Vec<u8>>)
        requires
            old(self)@.counter < u64::MAX,
        ensures
            r is Some <==> record_opened(old(self)@, ct@) is Some,
            r matches Some(plaintext) ==> {
                &&& record_opened(old(self)@, ct@) == Some(plaintext@)
                &&& ct@ == record_sealed(old(self)@, plaintext@)
                &&& ct@.len() == plaintext@.len() + TAG
                &&& final(self)@ == next_record(old(self)@)
            },
            r is None ==> final(self)@ == old(self)@,
    {
        if ct.len() as u64 > MAX_SEALED + TAG as u64 {
            return None;
        }
        let nonce = record_nonce_bytes(self.counter);
        let aad: Vec<u8> = Vec::new();
        assert(aad@ =~= Seq::empty());
        match open(&self.key, &nonce, aad.as_slice(), ct) {
            Some(plaintext) => {
                self.counter = self.counter + 1;
                Some(plaintext)
            },
            None => None,
        }
    }
}

/// The key of one direction of the datagrams, which may come in any order.
pub struct DatagramKey {
    key: [u8; 32],
}

impl View for DatagramKey {
    type V = Seq<u8>;

    closed spec fn view(&self) -> Seq<u8> {
        self.key@
    }
}

/// The nonce of a datagram: its type, its channel, its number.
pub open spec fn datagram_nonce(dtype: u8, channel: u8, seq: u32) -> Seq<u8> {
    seq![dtype, channel, 0u8] + octets::le32(seq) + seq![0u8, 0u8, 0u8, 0u8, 0u8]
}

/// What a datagram authenticates besides its content.
pub open spec fn datagram_aad(dtype: u8, channel: u8) -> Seq<u8> {
    seq![dtype, channel]
}

/// The bytes of a message sealed as a datagram.
pub open spec fn datagram_sealed(
    key: Seq<u8>,
    dtype: u8,
    channel: u8,
    seq: u32,
    plaintext: Seq<u8>,
) -> Seq<u8> {
    primitives::sealed(
        key,
        datagram_nonce(dtype, channel, seq),
        datagram_aad(dtype, channel),
        plaintext,
    )
}

/// What a datagram opens to.
pub open spec fn datagram_opened(
    key: Seq<u8>,
    dtype: u8,
    channel: u8,
    seq: u32,
    ct: Seq<u8>,
) -> Option<Seq<u8>> {
    if ct.len() > MAX_SEALED + TAG {
        None
    } else {
        primitives::opened(
            key,
            datagram_nonce(dtype, channel, seq),
            datagram_aad(dtype, channel),
            ct,
        )
    }
}

/// Datagrams of a direction that differ in type, channel or number have different nonces.
pub proof fn lemma_datagram_nonces_distinct(
    type_a: u8,
    channel_a: u8,
    seq_a: u32,
    type_b: u8,
    channel_b: u8,
    seq_b: u32,
)
    requires
        datagram_nonce(type_a, channel_a, seq_a) == datagram_nonce(type_b, channel_b, seq_b),
    ensures
        type_a == type_b,
        channel_a == channel_b,
        seq_a == seq_b,
{
    let a = datagram_nonce(type_a, channel_a, seq_a);
    let b = datagram_nonce(type_b, channel_b, seq_b);
    assert(a[0] == type_a && b[0] == type_b && a[1] == channel_a && b[1] == channel_b);
    assert(a.subrange(3, 7) =~= octets::le32(seq_a));
    assert(b.subrange(3, 7) =~= octets::le32(seq_b));
    octets::lemma_le32_injective(seq_a, seq_b);
}

/// What a datagram authenticates besides its content tells its type and its channel.
pub proof fn lemma_datagram_aads_distinct(type_a: u8, channel_a: u8, type_b: u8, channel_b: u8)
    requires
        datagram_aad(type_a, channel_a) == datagram_aad(type_b, channel_b),
    ensures
        type_a == type_b,
        channel_a == channel_b,
{
    assert(datagram_aad(type_a, channel_a)[0] == type_a);
    assert(datagram_aad(type_b, channel_b)[0] == type_b);
    assert(datagram_aad(type_a, channel_a)[1] == channel_a);
    assert(datagram_aad(type_b, channel_b)[1] == channel_b);
}

fn datagram_nonce_bytes(dtype: u8, channel: u8, seq: u32) -> (r: [u8; 12])
    ensures
        r@ == datagram_nonce(dtype, channel, seq),
{
    let mut bytes: Vec<u8> = Vec::new();
    bytes.push(dtype);
    bytes.push(channel);
    bytes.push(0);
    push_le32(&mut bytes, seq);
    bytes.push(0);
    bytes.push(0);
    bytes.push(0);
    bytes.push(0);
    bytes.push(0);
    let r = array12(bytes.as_slice(), 0);
    assert(r@ =~= datagram_nonce(dtype, channel, seq));
    r
}

impl DatagramKey {
    /// The key of one direction. Which one it is does not enter the nonces: the two directions
    /// have different keys.
    pub fn new(key: [u8; 32], _dir_tx: bool) -> (r: Self)
        ensures
            r@ == key@,
    {
        DatagramKey { key }
    }

    /// Seals a datagram. The other end opens it under the same type, channel and number.
    pub fn seal(&self, dtype: u8, channel: u8, seq: u32, plaintext: &[u8]) -> (ct: Vec<u8>)
        requires
            plaintext@.len() <= MAX_SEALED,
        ensures
            ct@ == datagram_sealed(self@, dtype, channel, seq, plaintext@),
            ct@.len() == plaintext@.len() + TAG,
            datagram_opened(self@, dtype, channel, seq, ct@) == Some(plaintext@),
    {
        let nonce = datagram_nonce_bytes(dtype, channel, seq);
        let aad: [u8; 2] = [dtype, channel];
        assert(aad@ =~= datagram_aad(dtype, channel));
        seal(&self.key, &nonce, aad.as_slice(), plaintext)
    }

    /// Opens a datagram.
    pub fn open(&self, dtype: u8, channel: u8, seq: u32, ct: &[u8]) -> (r: Option<Vec<u8>>)
        ensures
            r is Some <==> datagram_opened(self@, dtype, channel, seq, ct@) is Some,
            r matches Some(plaintext) ==> {
                &&& datagram_opened(self@, dtype, channel, seq, ct@) == Some(plaintext@)
                &&& ct@ == datagram_sealed(self@, dtype, channel, seq, plaintext@)
                &&& ct@.len() == plaintext@.len() + TAG
            },
    {
        if ct.len() as u64 > MAX_SEALED + TAG as u64 {
            return None;
        }
        let nonce = datagram_nonce_bytes(dtype, channel, seq);
        let aad: [u8; 2] = [dtype, channel];
        assert(aad@ =~= datagram_aad(dtype, channel));
        open(&self.key, &nonce, aad.as_slice(), ct)
    }
}

/// Where things stand in the nonces: that of a record is four bytes of nought and the record's number,
/// that of a datagram its type, its channel, one of nought, its number and five of nought; numbers
/// with their least significant bytes first.
pub proof fn lemma_nonce_layout(counter: u64, dtype: u8, channel: u8, seq: u32)
    ensures
        record_nonce(counter).len() == 12,
        record_nonce(counter).take(4) == seq![0u8, 0u8, 0u8, 0u8],
        record_nonce(counter).skip(4) == octets::le64(counter),
        datagram_nonce(dtype, channel, seq).len() == 12,
        datagram_nonce(dtype, channel, seq)[0] == dtype,
        datagram_nonce(dtype, channel, seq)[1] == channel,
        datagram_nonce(dtype, channel, seq)[2] == 0,
        datagram_nonce(dtype, channel, seq).subrange(3, 7) == octets::le32(seq),
        datagram_nonce(dtype, channel, seq).skip(7) == seq![0u8, 0u8, 0u8, 0u8, 0u8],
{
    assert(record_nonce(counter).take(4) =~= seq![0u8, 0u8, 0u8, 0u8]);
    assert(record_nonce(counter).skip(4) =~= octets::le64(counter));
    assert(datagram_nonce(dtype, channel, seq).subrange(3, 7) =~= octets::le32(seq));
    assert(datagram_nonce(dtype, channel, seq).skip(7) =~= seq![0u8, 0u8, 0u8, 0u8, 0u8]);
}

/// Where things stand in the messages of a handshake: in the client's the version, its public key, its
/// nonce and its port; in the host's its public key, its nonce, its proof and its port; in what both
/// prove the version, the client's and the host's public key, and the client's and the host's nonce.
pub proof fn lemma_handshake_layout(
    c: ClientModel,
    udp_port: u16,
    hello1: Seq<u8>,
    psk: Seq<u8>,
    secret: Seq<u8>,
    nh: Seq<u8>,
    eh: Seq<u8>,
)
    requires
        c.ec.len() == 32,
        c.nc.len() == 16,
        nh.len() == 16,
        eh.len() == 32,
    ensures
        ({
            let one = hello1_bytes(c, udp_port);
            let two = hello2_bytes(hello1, psk, udp_port, secret, nh);
            let t = transcript_of(c.ec, eh, c.nc, nh);
            &&& one.len() == 51 && one[0] == 1 && one.subrange(1, 33) == c.ec && one.subrange(33, 49)
                == c.nc && one[49] + 0x100 * one[50] == udp_port
            &&& two.len() == 82 && two.subrange(0, 32) == public_key(secret) && two.subrange(32, 48)
                == nh && two.subrange(48, 80) == confirm_of(
                host_keys(hello1, psk, secret, nh).h2c,
                host_label(),
                host_transcript(hello1, secret, nh),
            ) && two[80] + 0x100 * two[81] == udp_port
            &&& t.len() == 97 && t[0] == 1 && t.subrange(1, 33) == c.ec && t.subrange(33, 65) == eh
                && t.subrange(65, 81) == c.nc && t.subrange(81, 97) == nh
        }),
{
    let one = hello1_bytes(c, udp_port);
    let two = hello2_bytes(hello1, psk, udp_port, secret, nh);
    let t = transcript_of(c.ec, eh, c.nc, nh);
    let code = confirm_of(
        host_keys(hello1, psk, secret, nh).h2c,
        host_label(),
        host_transcript(hello1, secret, nh),
    );
    octets::lemma_worth16(udp_port);
    assert(public_key(secret).len() == 32 && code.len() == 32);
    assert(one.subrange(1, 33) =~= c.ec && one.subrange(33, 49) =~= c.nc);
    assert(one[49] == octets::le16(udp_port)[0] && one[50] == octets::le16(udp_port)[1]);
    assert(two.subrange(0, 32) =~= public_key(secret) && two.subrange(32, 48) =~= nh
        && two.subrange(48, 80) =~= code);
    assert(two[80] == octets::le16(udp_port)[0] && two[81] == octets::le16(udp_port)[1]);
    assert(t.subrange(1, 33) =~= c.ec && t.subrange(33, 65) =~= eh && t.subrange(65, 81) =~= c.nc
        && t.subrange(81, 97) =~= nh);
}

/// A handshake between a client and a host that hold the same secret of the band gives both a session,
/// in which each receives with what the other sends with; the host accepts the client's proof, and
/// each learns the other's port.
pub proof fn lemma_handshake_gives_sessions(
    c: ClientModel,
    client_port: u16,
    host_port: u16,
    secret: Seq<u8>,
    nh: Seq<u8>,
    answer: (Vec<u8>, Session, PendingConfirm, u16),
    client: Session,
)
    requires
        c.wf(),
        secret.len() == 32,
        nh.len() == 16,
        host_answers(hello1_bytes(c, client_port), c.psk, host_port, secret, nh, answer),
        client.is_client(client_keys(c, answer.0@)),
    ensures
        client_error(c, answer.0@) is None,
        client.k_tcp_tx@ == answer.1.k_tcp_rx@,
        client.k_tcp_rx@ == answer.1.k_tcp_tx@,
        client.k_udp_tx@ == answer.1.k_udp_rx@,
        client.k_udp_rx@ == answer.1.k_udp_tx@,
        client.session_id@ == answer.1.session_id@,
        proof_error(answer.2.key(), answer.2.covered(), client_proof(c, answer.0@)) is None,
        answer.3 == client_port,
        octets::le16_at(answer.0@, 80) == host_port,
{
    lemma_same_secret_agrees(c, client_port, host_port, secret, nh);
    lemma_ends_mirror(client, answer.1, client_keys(c, answer.0@));
}

} // verus!
