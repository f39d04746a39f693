//! The certificate of a hub: one that it makes for itself, or one that it is given.
use crate::base64::{self, decode_sextets};
use crate::hex::{self, to_hex};
use crate::primitives::{self, sha256};
use crate::text::{self, chars_of, space};
use rcgen::{CertificateParams, DistinguishedName, DnType, KeyPair};
use time::OffsetDateTime;
use vstd::prelude::*;

verus! {

/// The longest, in days, that a certificate may be valid which is known by its digest.
pub const MAX_SELF_SIGNED_DAYS: i64 = 14;

/// How long, in seconds, before now a certificate starts to be valid, for clocks that are late.
pub const SKEW: i64 = 3600;

/// The earliest time, in seconds since 1970, that a certificate can name: the start of the
/// year 0.
pub const FIRST_SECOND: i64 = -62_167_219_200;

/// The latest time, in seconds since 1970, that a certificate can name: the end of the year
/// 9999.
pub const LAST_SECOND: i64 = 253_402_300_799;

/// The name that a certificate of the hub's own making bears.
pub const COMMON_NAME: &'static str = "telesthete-hub";

/// A certificate with its key, and the certificate's digest.
pub struct HubCert {
    /// The certificate in DER.
    pub cert_der: Vec<u8>,
    /// The certificate in PEM.
    pub cert_pem: String,
    /// The key in DER.
    pub key_der: Vec<u8>,
    /// The key in PEM.
    pub key_pem: String,
    /// The digest of the certificate in DER.
    pub sha256: [u8; 32],
}

/// Why there is no certificate.
#[derive(Debug)]
pub enum TlsError {
    /// It would be valid for this many days, which is too many.
    ValidityTooLong(i64),
    /// It would be valid for this many days, which is none.
    ValidityNonPositive(i64),
    /// It could not be made, for this reason.
    Rcgen(String),
    /// It could not be read, for this reason.
    Parse(&'static str),
}

/// A certificate and its key as they were issued.
pub struct Issued {
    pub cert_der: Vec<u8>,
    pub cert_pem: String,
    pub key_der: Vec<u8>,
    pub key_pem: String,
}

/// What can go wrong in `rcgen`.
#[verifier::external_type_specification]
#[verifier::external_body]
pub struct ExRcgenError(rcgen::Error);

/// Why `rcgen` failed, by its own words. Nothing is known of them.
#[verifier::external_body]
fn rcgen_words(e: &rcgen::Error) -> (r: String) {
    e.to_string()
}

/// The time in seconds since 1970, by `OffsetDateTime::now_utc`. The type holds no year past
/// 999999 on either side.
#[verifier::external_body]
fn unix_now() -> (r: i64)
    ensures
        -40_000_000_000_000 <= r <= 40_000_000_000_000,
{
    OffsetDateTime::now_utc().unix_timestamp()
}

/// The elliptic curve that a key lies on.
#[derive(Debug, Clone, Copy, PartialEq, Eq, Structural)]
pub enum Curve {
    P256,
    P384,
}

/// What a certificate is to say: the curve of its key, the names and addresses that it is for,
/// the name that it bears, and from when to when it is valid, in seconds since 1970.
pub struct CertRequest {
    pub curve: Curve,
    pub sans: Vec<String>,
    pub name: String,
    pub not_before: i64,
    pub not_after: i64,
}

/// What a certificate says.
#[verifier::ext_equal]
pub struct CertModel {
    /// The curve of its key.
    pub curve: Curve,
    /// The public key that it certifies.
    pub public_key: Seq<u8>,
    /// What it is for, in order: for each whether it is an address, and the bytes of the
    /// address or of the name.
    pub alt_names: Seq<(bool, Seq<u8>)>,
    /// The name that it bears.
    pub name: Seq<char>,
    /// From when to when it is valid, in seconds since 1970.
    pub not_before: i64,
    pub not_after: i64,
}

/// What a certificate in DER says of itself.
pub uninterp spec fn certified(cert_der: Seq<u8>) -> CertModel;

/// The public key of the pair whose private key is written in DER, as `KeyPair::serialize_der`
/// writes it.
pub uninterp spec fn public_half(key_der: Seq<u8>) -> Seq<u8>;

/// What `CertificateParams::new` makes of texts: of each whether it is an address, and the bytes
/// of the address or of the name. There is nothing where one of them is neither.
pub uninterp spec fn alt_names(texts: Seq<Seq<char>>) -> Option<Seq<(bool, Seq<u8>)>>;

/// The texts in `v`.
pub open spec fn texts_of(v: Seq<String>) -> Seq<Seq<char>> {
    v.map_values(|s: String| s@)
}

/// Makes a key on the given curve, and a certificate of it that it signs itself, by `rcgen`'s
/// `KeyPair::generate_for`, `CertificateParams::new` and `CertificateParams::self_signed`: what
/// it says is what was requested, it is for what the texts were made into, and it certifies the
/// public half of the key that comes with it, which `KeyPair::serialize_der` writes. The PEM of
/// the certificate and that of the key, by `Certificate::pem` and `KeyPair::serialize_pem`, hold
/// their DER.
///
/// The key is made at random, so it is left unsaid which bytes come back. Left unsaid too is
/// whether it fails where the texts can be made into something. Times past what a certificate
/// can name would make it panic.
#[verifier::external_body]
fn issue(request: CertRequest) -> (r: Result<Issued, rcgen::Error>)
    requires
        FIRST_SECOND <= request.not_before <= LAST_SECOND,
        FIRST_SECOND <= request.not_after <= LAST_SECOND,
    ensures
        r matches Ok(i) ==> {
            &&& alt_names(texts_of(request.sans@)) == Some(certified(i.cert_der@).alt_names)
            &&& certified(i.cert_der@).curve == request.curve
            &&& certified(i.cert_der@).public_key == public_half(i.key_der@)
            &&& certified(i.cert_der@).name == request.name@
            &&& certified(i.cert_der@).not_before == request.not_before
            &&& certified(i.cert_der@).not_after == request.not_after
            &&& pem_content(i.cert_pem@, "CERTIFICATE"@) == Some(i.cert_der@)
            &&& pem_content(i.key_pem@, "PRIVATE KEY"@) == Some(i.key_der@)
        },
{
    let key = KeyPair::generate_for(match request.curve {
        Curve::P256 => &rcgen::PKCS_ECDSA_P256_SHA256,
        Curve::P384 => &rcgen::PKCS_ECDSA_P384_SHA384,
    })?;
    let mut params = CertificateParams::new(request.sans)?;
    params.not_before = OffsetDateTime::from_unix_timestamp(request.not_before).expect("in range");
    params.not_after = OffsetDateTime::from_unix_timestamp(request.not_after).expect("in range");
    params.distinguished_name = DistinguishedName::new();
    params.distinguished_name.push(DnType::CommonName, request.name);
    let cert = params.self_signed(&key)?;
    let (cert_der, cert_pem) = (cert.der().to_vec(), cert.pem());
    let (key_der, key_pem) = (key.serialize_der(), key.serialize_pem());
    Ok(Issued { cert_der, cert_pem, key_der, key_pem })
}

/// A time, or the nearest that a certificate can name.
pub open spec fn within(t: int) -> int {
    if t < FIRST_SECOND {
        FIRST_SECOND as int
    } else if t > LAST_SECOND {
        LAST_SECOND as int
    } else {
        t
    }
}

/// From when to when a certificate is valid that is made now: from a little before now, for a
/// minute less than the given days.
pub open spec fn window_of(now: int, days: int) -> (int, int) {
    (within(now - SKEW), within(now - SKEW + days * 86400 - 60))
}

/// A certificate is valid for no longer than it may be, and if the clock is sane it is valid
/// now and for as long as was asked, but for a minute.
pub proof fn lemma_window(now: int, days: int)
    requires
        1 <= days <= MAX_SELF_SIGNED_DAYS,
    ensures
        ({
            let (from, to) = window_of(now, days);
            &&& from <= to
            &&& to - from < MAX_SELF_SIGNED_DAYS * 86400
            &&& FIRST_SECOND + SKEW <= now <= LAST_SECOND - MAX_SELF_SIGNED_DAYS * 86400 ==> {
                &&& from <= now <= to
                &&& to - from == days * 86400 - 60
            }
        }),
{
}

/// A certificate is valid from an hour before it is made on, for those whose clocks are behind, and
/// for the days that were asked for from then on, but for a minute.
pub proof fn lemma_valid_from_before(now: int, days: int)
    requires
        1 <= days <= MAX_SELF_SIGNED_DAYS,
        FIRST_SECOND + 3600 <= now <= LAST_SECOND - 14 * 86400,
    ensures
        window_of(now, days).0 == now - 3600,
        window_of(now, days).1 == now - 3600 + days * 86400 - 60,
{
}

fn clamp_time(t: i64) -> (r: i64)
    ensures
        r == within(t as int),
{
    if t < FIRST_SECOND {
        FIRST_SECOND
    } else if t > LAST_SECOND {
        LAST_SECOND
    } else {
        t
    }
}

/// From when to when a certificate is valid that is made now.
pub fn validity_window(now: i64, valid_days: i64) -> (r: (i64, i64))
    requires
        -40_000_000_000_000 <= now <= 40_000_000_000_000,
        1 <= valid_days <= MAX_SELF_SIGNED_DAYS,
    ensures
        (r.0 as int, r.1 as int) == window_of(now as int, valid_days as int),
{
    let start: i64 = now - SKEW;
    (clamp_time(start), clamp_time(start + valid_days * 86400 - 60))
}

impl HubCert {
    /// Whether the digest is that of the certificate.
    pub open spec fn wf(self) -> bool {
        self.sha256@ == primitives::sha256_of(self.cert_der@)
    }

    /// A certificate as it was issued, with its digest.
    pub fn of_issued(issued: Issued) -> (r: Self)
        ensures
            r.wf(),
            r.cert_der == issued.cert_der,
            r.cert_pem == issued.cert_pem,
            r.key_der == issued.key_der,
            r.key_pem == issued.key_pem,
    {
        let digest = sha256(issued.cert_der.as_slice());
        HubCert {
            cert_der: issued.cert_der,
            cert_pem: issued.cert_pem,
            key_der: issued.key_der,
            key_pem: issued.key_pem,
            sha256: digest,
        }
    }

    /// The digest in hexadecimal, with a colon between the bytes.
    pub fn sha256_hex(&self) -> (s: String)
        ensures
            s@ == colon_hex(self.sha256@),
    {
        let bytes = self.sha256.as_slice();
        let mut s: String = String::new();
        let mut i: usize = 0;
        assert(bytes@.take(0) =~= Seq::empty());
        assert(s@ =~= Seq::empty());
        while i < bytes.len()
            invariant
                i <= bytes@.len(),
                s@ == colon_hex(bytes@.take(i as int)),
            decreases bytes@.len() - i,
        {
            let ghost before = s@;
            if i > 0 {
                s.push(':');
            }
            let one: [u8; 1] = [bytes[i]];
            let digits = to_hex(one.as_slice());
            s.append(digits.as_str());
            proof {
                assert(one@ =~= seq![bytes@[i as int]]);
                assert(bytes@.take(i + 1).drop_last() =~= bytes@.take(i as int));
                assert(bytes@.take(i + 1).last() == bytes@[i as int]);
                assert(s@ =~= colon_hex(bytes@.take(i + 1)));
            }
            i = i + 1;
        }
        assert(bytes@.take(i as int) =~= self.sha256@);
        s
    }
}

/// Bytes in hexadecimal, with a colon between them.
pub open spec fn colon_hex(bytes: Seq<u8>) -> Seq<char>
    decreases bytes.len(),
{
    if bytes.len() == 0 {
        Seq::empty()
    } else if bytes.len() == 1 {
        hex::hex_of(bytes)
    } else {
        colon_hex(bytes.drop_last()).push(':') + hex::hex_of(seq![bytes.last()])
    }
}

/// Where things stand in the digest of a certificate as text: two digits for each byte, in order,
/// with a colon between each two.
#[verifier::spinoff_prover]
#[verifier::rlimit(40)]
pub proof fn lemma_colon_hex_layout(bytes: Seq<u8>, i: int)
    requires
        0 <= i < bytes.len(),
    ensures
        colon_hex(bytes).len() == 3 * bytes.len() - 1,
        colon_hex(bytes).subrange(3 * i, 3 * i + 2) == hex::hex_of(seq![bytes[i]]),
        i < bytes.len() - 1 ==> colon_hex(bytes)[3 * i + 2] == ':',
    decreases bytes.len(),
{
    let s = colon_hex(bytes);
    let n = bytes.len() as int;
    let last = hex::hex_of(seq![bytes.last()]);
    assert(last.len() == 2);
    if n == 1 {
        assert(bytes =~= seq![bytes[0]]);
        assert(s.subrange(0, 2) =~= s);
    } else {
        let front = bytes.drop_last();
        let before = colon_hex(front);
        let k = if i < n - 1 {
            i
        } else {
            0
        };
        lemma_colon_hex_layout(front, k);
        assert(s == before.push(':') + last);
        if i < n - 1 {
            assert(front[i] == bytes[i]);
            assert(s.subrange(3 * i, 3 * i + 2) =~= before.subrange(3 * i, 3 * i + 2));
        } else {
            assert(s.subrange(3 * i, 3 * i + 2) =~= last);
        }
    }
}

/// The texts of names.
pub open spec fn names_of(names: Seq<&str>) -> Seq<Seq<char>> {
    names.map_values(|s: &str| s@)
}

fn owned(names: &[&str]) -> (out: Vec<String>)
    ensures
        texts_of(out@) == names_of(names@),
{
    let mut out: Vec<String> = Vec::new();
    let mut i: usize = 0;
    while i < names.len()
        invariant
            i <= names@.len(),
            out@.len() == i,
            forall|k: int| 0 <= k < i ==> (#[trigger] out@[k])@ == names@[k]@,
        decreases names@.len() - i,
    {
        out.push(names[i].to_owned());
        i = i + 1;
    }
    assert(texts_of(out@) =~= names_of(names@));
    out
}

/// Why no certificate is requested for this many days, if none is.
pub open spec fn days_error(valid_days: i64) -> Option<TlsError> {
    if valid_days <= 0 {
        Some(TlsError::ValidityNonPositive(valid_days))
    } else if valid_days > MAX_SELF_SIGNED_DAYS {
        Some(TlsError::ValidityTooLong(valid_days))
    } else {
        None
    }
}

/// A certificate is requested for at least a day and for no longer than it may be valid; anything
/// else is refused with the days that were asked for.
pub proof fn lemma_days_refused(valid_days: i64)
    ensures
        days_error(valid_days) is None <==> 1 <= valid_days <= MAX_SELF_SIGNED_DAYS,
        valid_days < 1 ==> days_error(valid_days) == Some(TlsError::ValidityNonPositive(valid_days)),
        valid_days > MAX_SELF_SIGNED_DAYS ==> days_error(valid_days) == Some(
            TlsError::ValidityTooLong(valid_days),
        ),
{
}

/// What to request at the time `now` for the given names and addresses and the given days.
pub fn request(sans: &[&str], valid_days: i64, now: i64) -> (r: Result<CertRequest, TlsError>)
    requires
        -40_000_000_000_000 <= now <= 40_000_000_000_000,
    ensures
        match r {
            Ok(c) => {
                &&& days_error(valid_days) is None
                &&& c.curve == Curve::P256
                &&& texts_of(c.sans@) == names_of(sans@)
                &&& c.name@ == COMMON_NAME@
                &&& (c.not_before as int, c.not_after as int) == window_of(
                    now as int,
                    valid_days as int,
                )
            },
            Err(e) => days_error(valid_days) == Some(e),
        },
{
    if valid_days <= 0 {
        return Err(TlsError::ValidityNonPositive(valid_days));
    }
    if valid_days > MAX_SELF_SIGNED_DAYS {
        return Err(TlsError::ValidityTooLong(valid_days));
    }
    let (not_before, not_after) = validity_window(now, valid_days);
    Ok(CertRequest { curve: Curve::P256, sans: owned(sans), name: COMMON_NAME.to_owned(), not_before, not_after })
}

/// Whether a certificate in DER is one that was made at some time for the given texts and days.
pub open spec fn made_for(cert_der: Seq<u8>, texts: Seq<Seq<char>>, valid_days: int) -> bool {
    let c = certified(cert_der);
    &&& alt_names(texts) == Some(c.alt_names)
    &&& c.curve == Curve::P256
    &&& c.name == COMMON_NAME@
    &&& exists|now: int|
        c.not_before == (#[trigger] window_of(now, valid_days)).0 && c.not_after == window_of(
            now,
            valid_days,
        ).1
}

/// Makes a certificate on P-256 for the given names and addresses, valid for the given days
/// from now.
///
/// Whether it can be made beyond the check of the days, the issuing of it decides; it never can
/// where one of the names and addresses is neither. Its digest is that of what was issued, the
/// key is the one that it certifies, and what stands in PEM is what stands in DER.
pub fn self_signed(sans: &[&str], valid_days: i64) -> (r: Result<HubCert, TlsError>)
    ensures
        match r {
            Ok(c) => {
                &&& days_error(valid_days) is None
                &&& c.wf()
                &&& made_for(c.cert_der@, names_of(sans@), valid_days as int)
                &&& certified(c.cert_der@).public_key == public_half(c.key_der@)
                &&& pem_content(c.cert_pem@, "CERTIFICATE"@) == Some(c.cert_der@)
                &&& pem_content(c.key_pem@, "PRIVATE KEY"@) == Some(c.key_der@)
            },
            Err(TlsError::Rcgen(_)) => days_error(valid_days) is None,
            Err(e) => days_error(valid_days) == Some(e),
        },
{
    let now = unix_now();
    match request(sans, valid_days, now) {
        Ok(asked) => match issue(asked) {
            Ok(issued) => {
                proof {
                    let w = window_of(now as int, valid_days as int);
                    assert(certified(issued.cert_der@).not_before == w.0);
                }
                Ok(HubCert::of_issued(issued))
            },
            Err(e) => Err(TlsError::Rcgen(rcgen_words(&e))),
        },
        Err(e) => Err(e),
    }
}

/// Reading back the PEM of a certificate that the hub made gives the same certificate and key.
pub proof fn lemma_made_reads_back(made: HubCert, read: HubCert)
    requires
        made.wf(),
        pem_content(made.cert_pem@, "CERTIFICATE"@) == Some(made.cert_der@),
        pem_content(made.key_pem@, "PRIVATE KEY"@) == Some(made.key_der@),
        taken(made.cert_pem@, made.key_pem@, Ok(read)),
    ensures
        read.cert_der@ == made.cert_der@,
        read.key_der@ == made.key_der@,
        read.sha256@ == made.sha256@,
{
}

/// No certificate that the hub makes is valid for longer than it may be.
pub proof fn lemma_certificate_short(cert_der: Seq<u8>, texts: Seq<Seq<char>>, valid_days: int)
    requires
        made_for(cert_der, texts, valid_days),
        1 <= valid_days <= MAX_SELF_SIGNED_DAYS,
    ensures
        certified(cert_der).not_before <= certified(cert_der).not_after,
        certified(cert_der).not_after - certified(cert_der).not_before < MAX_SELF_SIGNED_DAYS
            * 86400,
{
    let c = certified(cert_der);
    let now = choose|now: int|
        c.not_before == (#[trigger] window_of(now, valid_days)).0 && c.not_after == window_of(
            now,
            valid_days,
        ).1;
    lemma_window(now, valid_days);
}

/// Whether `pattern` stands in `s` at `at`.
pub open spec fn stands_at(s: Seq<char>, pattern: Seq<char>, at: int) -> bool {
    at + pattern.len() <= s.len() && s.subrange(at, at + pattern.len()) == pattern
}

/// The first place from `from` on where `pattern` stands in `s`.
pub open spec fn found_at(s: Seq<char>, pattern: Seq<char>, from: int) -> Option<int>
    decreases s.len() + 1 - from,
{
    if from > s.len() {
        None
    } else if stands_at(s, pattern, from) {
        Some(from)
    } else {
        found_at(s, pattern, from + 1)
    }
}

fn matches_at(s: &[char], pattern: &[char], at: usize) -> (r: bool)
    requires
        at <= s@.len(),
    ensures
        r == stands_at(s@, pattern@, at as int),
{
    if s.len() - at < pattern.len() {
        return false;
    }
    let mut i: usize = 0;
    while i < pattern.len()
        invariant
            i <= pattern@.len(),
            at + pattern@.len() <= s@.len(),
            s@.len() == s.len(),
            forall|k: int| 0 <= k < i ==> s@[at + k] == pattern@[k],
        decreases pattern@.len() - i,
    {
        if s[at + i] != pattern[i] {
            assert(s@.subrange(at as int, at + pattern@.len())[i as int] != pattern@[i as int]);
            return false;
        }
        i = i + 1;
    }
    assert(s@.subrange(at as int, at + pattern@.len()) =~= pattern@);
    true
}

fn find(s: &[char], pattern: &[char], from: usize) -> (r: Option<usize>)
    requires
        from <= s@.len(),
    ensures
        match r {
            Some(at) => found_at(s@, pattern@, from as int) == Some(at as int) && at
                + pattern@.len() <= s@.len() && from <= at,
            None => found_at(s@, pattern@, from as int) is None,
        },
{
    let mut at: usize = from;
    loop
        invariant
            from <= at <= s@.len(),
            found_at(s@, pattern@, from as int) == found_at(s@, pattern@, at as int),
        decreases s@.len() - at,
    {
        if matches_at(s, pattern, at) {
            return Some(at);
        }
        if at == s.len() {
            assert(found_at(s@, pattern@, at + 1) is None);
            return None;
        }
        at = at + 1;
    }
}

/// Text without the white space in it.
pub open spec fn without_space(s: Seq<char>) -> Seq<char>
    decreases s.len(),
{
    if s.len() == 0 {
        s
    } else if text::is_space(s.last()) {
        without_space(s.drop_last())
    } else {
        without_space(s.drop_last()).push(s.last())
    }
}

/// Text without the padding behind it.
pub open spec fn without_padding(s: Seq<char>) -> Seq<char>
    decreases s.len(),
{
    if s.len() > 0 && s.last() == '=' {
        without_padding(s.drop_last())
    } else {
        s
    }
}

/// Whether every character of text stands for six bits.
pub open spec fn is_base64(s: Seq<char>) -> bool {
    forall|i: int|
        0 <= i < s.len() ==> (#[trigger] s[i]) < '\u{80}' && base64::sextet_of(s[i] as u8) is Some
}

/// The bytes of ASCII text.
pub open spec fn ascii_bytes(s: Seq<char>) -> Seq<u8> {
    s.map_values(|c: char| c as u8)
}

/// The bytes that base64 text writes, if it is such.
pub open spec fn base64_bytes(s: Seq<char>) -> Option<Seq<u8>> {
    let t = without_padding(s);
    if is_base64(t) {
        Some(base64::bytes_of_sextets(base64::sextets_of(ascii_bytes(t))))
    } else {
        None
    }
}

/// The bytes that base64 text writes, padded or not.
pub fn base64_decode(s: &str) -> (r: Option<Vec<u8>>)
    ensures
        r is Some <==> base64_bytes(s@) is Some,
        r matches Some(v) ==> base64_bytes(s@) == Some(v@),
{
    let chars = chars_of(s);
    decode_chars(chars.as_slice())
}

fn decode_chars(s: &[char]) -> (r: Option<Vec<u8>>)
    ensures
        r is Some <==> base64_bytes(s@) is Some,
        r matches Some(v) ==> base64_bytes(s@) == Some(v@),
{
    let mut end: usize = s.len();
    assert(s@.take(end as int) =~= s@);
    while end > 0 && s[end - 1] == '='
        invariant
            end <= s@.len(),
            without_padding(s@) == without_padding(s@.take(end as int)),
        decreases end,
    {
        assert(s@.take(end as int).drop_last() =~= s@.take(end - 1));
        end = end - 1;
    }
    let ghost t = s@.take(end as int);
    let mut bytes: Vec<u8> = Vec::new();
    let mut i: usize = 0;
    while i < end
        invariant
            i <= end <= s@.len(),
            t == s@.take(end as int),
            without_padding(s@) == t,
            bytes@.len() == i,
            forall|k: int| 0 <= k < i ==> (#[trigger] t[k]) < '\u{80}' && bytes@[k] == t[k] as u8,
        decreases end - i,
    {
        let c = s[i];
        assert(t[i as int] == c);
        if c >= '\u{80}' {
            assert(!is_base64(t));
            return None;
        }
        bytes.push(c as u8);
        i = i + 1;
    }
    assert(bytes@ =~= ascii_bytes(t));
    let r = decode_sextets(bytes.as_slice());
    proof {
        if is_base64(t) {
            assert forall|k: int| 0 <= k < bytes@.len() implies base64::sextet_of(
                #[trigger] bytes@[k],
            ) is Some by {
                assert(base64::sextet_of(t[k] as u8) is Some);
            }
        } else if base64::all_sextets(bytes@) {
            assert forall|k: int| 0 <= k < t.len() implies (#[trigger] t[k]) < '\u{80}'
                && base64::sextet_of(t[k] as u8) is Some by {
                assert(bytes@[k] == t[k] as u8);
            }
        }
    }
    r
}

/// What stands in front of a block of PEM.
pub open spec fn begin_mark(label: Seq<char>) -> Seq<char> {
    "-----BEGIN "@ + label + "-----"@
}

/// What stands behind a block of PEM.
pub open spec fn end_mark(label: Seq<char>) -> Seq<char> {
    "-----END "@ + label + "-----"@
}

/// The content of the first block with the given label, if there is one and it is base64.
pub open spec fn pem_content(pem: Seq<char>, label: Seq<char>) -> Option<Seq<u8>> {
    match found_at(pem, begin_mark(label), 0) {
        None => None,
        Some(begin) => {
            let start = begin + begin_mark(label).len();
            match found_at(pem, end_mark(label), start as int) {
                None => None,
                Some(stop) => base64_bytes(without_space(pem.subrange(start as int, stop))),
            }
        },
    }
}

proof fn lemma_found_at(s: Seq<char>, pattern: Seq<char>, from: int, at: int)
    requires
        0 <= from <= at,
        stands_at(s, pattern, at),
        forall|k: int| from <= k < at ==> !#[trigger] stands_at(s, pattern, k),
    ensures
        found_at(s, pattern, from) == Some(at),
    decreases at - from,
{
    if from < at {
        assert(!stands_at(s, pattern, from));
        lemma_found_at(s, pattern, from + 1, at);
    }
}

/// A search finds a pattern wherever it stands first, and finds none where it stands nowhere.
pub proof fn lemma_first_found(s: Seq<char>, pattern: Seq<char>, from: int)
    requires
        0 <= from,
    ensures
        match found_at(s, pattern, from) {
            Some(at) => from <= at && stands_at(s, pattern, at) && forall|k: int|
                from <= k < at ==> !#[trigger] stands_at(s, pattern, k),
            None => forall|k: int| from <= k <= s.len() ==> !#[trigger] stands_at(s, pattern, k),
        },
    decreases s.len() + 1 - from,
{
    if from <= s.len() && !stands_at(s, pattern, from) {
        lemma_first_found(s, pattern, from + 1);
    }
}

/// What stands between the marks of a block is read, whatever stands before the block and behind
/// it, without the white space in it.
pub proof fn lemma_block_read(
    front: Seq<char>,
    label: Seq<char>,
    body: Seq<char>,
    rest: Seq<char>,
)
    requires
        ({
            let pem = front + begin_mark(label) + body + end_mark(label) + rest;
            let start = front.len() + begin_mark(label).len();
            &&& forall|k: int|
                0 <= k < front.len() ==> !#[trigger] stands_at(pem, begin_mark(label), k)
            &&& forall|k: int|
                start <= k < start + body.len() ==> !#[trigger] stands_at(pem, end_mark(label), k)
        }),
    ensures
        pem_content(front + begin_mark(label) + body + end_mark(label) + rest, label)
            == base64_bytes(without_space(body)),
{
    let (begin, end) = (begin_mark(label), end_mark(label));
    let pem = front + begin + body + end + rest;
    let at = front.len() as int;
    let start = at + begin.len();
    let stop = start + body.len();
    assert(pem.subrange(at, at + begin.len()) =~= begin);
    assert(pem.subrange(stop, stop + end.len()) =~= end);
    assert(pem.subrange(start, stop) =~= body);
    lemma_found_at(pem, begin, 0, at);
    lemma_found_at(pem, end, start, stop);
}

/// What is left of text without white space: every other character, and text that has none is left
/// as it is.
pub proof fn lemma_space_dropped(s: Seq<char>, c: char)
    ensures
        without_space(s).contains(c) <==> s.contains(c) && !text::is_space(c),
        (forall|i: int| 0 <= i < s.len() ==> !text::is_space(#[trigger] s[i])) ==> without_space(s)
            == s,
    decreases s.len(),
{
    if s.len() > 0 {
        let front = s.drop_last();
        let before = without_space(front);
        let all = without_space(s);
        lemma_space_dropped(front, c);
        let n = s.len() - 1;
        assert(s[n] == s.last());
        if s.contains(c) {
            let i = s.index_of(c);
            if i < n {
                assert(front[i] == c);
            }
        }
        if front.contains(c) {
            assert(s[front.index_of(c)] == c);
        }
        if !text::is_space(s.last()) {
            assert(all[all.len() - 1] == s.last());
            if before.contains(c) {
                assert(all[before.index_of(c)] == c);
            }
            if all.contains(c) {
                let i = all.index_of(c);
                if i < before.len() {
                    assert(before[i] == c);
                }
            }
        }
        if forall|i: int| 0 <= i < s.len() ==> !text::is_space(#[trigger] s[i]) {
            assert forall|i: int| 0 <= i < front.len() implies !text::is_space(
                #[trigger] front[i],
            ) by {
                assert(front[i] == s[i]);
            }
            assert(front.push(s.last()) =~= s);
        }
    } else {
        assert(without_space(s) =~= s);
    }
}

/// What is left of base64 text without its padding: a front of it that does not end in an equals
/// sign, behind which there is nothing else.
pub proof fn lemma_padding_dropped(s: Seq<char>) -> (n: int)
    ensures
        0 <= n <= s.len(),
        without_padding(s) == s.take(n),
        forall|k: int| n <= k < s.len() ==> #[trigger] s[k] == '=',
        n > 0 ==> s[n - 1] != '=',
    decreases s.len(),
{
    if s.len() > 0 && s.last() == '=' {
        let front = s.drop_last();
        let n = lemma_padding_dropped(front);
        assert(front.take(n) =~= s.take(n));
        assert forall|k: int| n <= k < s.len() implies #[trigger] s[k] == '=' by {
            if k < front.len() {
                assert(front[k] == s[k]);
            }
        }
        assert(n > 0 ==> front[n - 1] == s[n - 1]);
        n
    } else {
        assert(s.take(s.len() as int) =~= s);
        s.len() as int
    }
}

/// Which of several keys is taken: one in the general form before one in a form of its own, and of
/// these one on a curve before the other.
pub proof fn lemma_key_taken(key_pem: Seq<char>)
    ensures
        pem_content(key_pem, "PRIVATE KEY"@) is Some ==> key_content(key_pem) == pem_content(
            key_pem,
            "PRIVATE KEY"@,
        ),
        pem_content(key_pem, "PRIVATE KEY"@) is None && pem_content(key_pem, "EC PRIVATE KEY"@)
            is Some ==> key_content(key_pem) == pem_content(key_pem, "EC PRIVATE KEY"@),
        key_content(key_pem) is None <==> pem_content(key_pem, "PRIVATE KEY"@) is None
            && pem_content(key_pem, "EC PRIVATE KEY"@) is None && pem_content(
            key_pem,
            "RSA PRIVATE KEY"@,
        ) is None,
{
}

fn mark(front: &str, label: &str) -> (v: Vec<char>)
    ensures
        v@ == front@ + label@ + "-----"@,
{
    let mut s = front.to_owned();
    s.append(label);
    s.append("-----");
    chars_of(s.as_str())
}

/// The content of the first block with the given label.
pub fn pem_to_der(pem: &str, label: &str) -> (r: Option<Vec<u8>>)
    ensures
        r is Some <==> pem_content(pem@, label@) is Some,
        r matches Some(v) ==> pem_content(pem@, label@) == Some(v@),
{
    let chars = chars_of(pem);
    let begin = mark("-----BEGIN ", label);
    let end = mark("-----END ", label);
    let len: usize = chars.len();
    let start: usize = match find(chars.as_slice(), begin.as_slice(), 0) {
        Some(at) => {
            assert(at + begin@.len() <= len);
            at + begin.len()
        },
        None => {
            return None;
        },
    };
    let stop: usize = match find(chars.as_slice(), end.as_slice(), start) {
        Some(at) => at,
        None => {
            return None;
        },
    };
    let ghost body = pem@.subrange(start as int, stop as int);
    let mut kept: Vec<char> = Vec::new();
    let mut i: usize = start;
    assert(body.take(0) =~= Seq::empty());
    while i < stop
        invariant
            start <= i <= stop <= chars@.len(),
            chars@ == pem@,
            body == pem@.subrange(start as int, stop as int),
            kept@ == without_space(body.take(i - start)),
        decreases stop - i,
    {
        let c = chars[i];
        assert(body[i - start] == c);
        assert(body.take(i + 1 - start).drop_last() =~= body.take(i - start));
        if !space(c) {
            kept.push(c);
        }
        i = i + 1;
    }
    assert(body.take(i - start) =~= body);
    decode_chars(kept.as_slice())
}

/// The key in PEM text, of whichever kind it is.
pub open spec fn key_content(key_pem: Seq<char>) -> Option<Seq<u8>> {
    match pem_content(key_pem, "PRIVATE KEY"@) {
        Some(k) => Some(k),
        None => match pem_content(key_pem, "EC PRIVATE KEY"@) {
            Some(k) => Some(k),
            None => pem_content(key_pem, "RSA PRIVATE KEY"@),
        },
    }
}

/// Whether this is what becomes of a certificate and its key that were given in PEM.
pub open spec fn taken(
    cert_pem: Seq<char>,
    key_pem: Seq<char>,
    r: Result<HubCert, TlsError>,
) -> bool {
    match r {
        Ok(c) => {
            &&& c.wf()
            &&& pem_content(cert_pem, "CERTIFICATE"@) == Some(c.cert_der@)
            &&& key_content(key_pem) == Some(c.key_der@)
            &&& c.cert_pem@ == cert_pem
            &&& c.key_pem@ == key_pem
        },
        Err(TlsError::Parse(why)) => if pem_content(cert_pem, "CERTIFICATE"@) is None {
            why@ == "no CERTIFICATE block"@
        } else {
            why@ == "no PRIVATE KEY block"@ && key_content(key_pem) is None
        },
        Err(_) => false,
    }
}

/// Takes a certificate and its key that were given in PEM.
pub fn from_pem(cert_pem: &str, key_pem: &str) -> (r: Result<HubCert, TlsError>)
    ensures
        taken(cert_pem@, key_pem@, r),
{
    let cert_der = match pem_to_der(cert_pem, "CERTIFICATE") {
        Some(der) => der,
        None => {
            return Err(TlsError::Parse("no CERTIFICATE block"));
        },
    };
    let key_der = match pem_to_der(key_pem, "PRIVATE KEY") {
        Some(der) => der,
        None => match pem_to_der(key_pem, "EC PRIVATE KEY") {
            Some(der) => der,
            None => match pem_to_der(key_pem, "RSA PRIVATE KEY") {
                Some(der) => der,
                None => {
                    return Err(TlsError::Parse("no PRIVATE KEY block"));
                },
            },
        },
    };
    Ok(
        HubCert::of_issued(
            Issued {
                cert_der,
                cert_pem: cert_pem.to_owned(),
                key_der,
                key_pem: key_pem.to_owned(),
            },
        ),
    )
}

} // verus!
