//! The settings of a hub. A setting that cannot be read is taken at its default.
use crate::hub::registry::Limits;
use crate::hub::tls::{self, from_pem, self_signed, HubCert, TlsError, MAX_SELF_SIGNED_DAYS};
use crate::text::{
    self, chars_of, comma_list, copy_texts, is_lowered, parse_number, text_of, trim, Number,
};
use vstd::prelude::*;

verus! {

/// Where a hub listens for datagrams.
pub const DEFAULT_UDP_BIND: &'static str = "0.0.0.0:7474";

/// The path that WebSocket connections are made on.
pub const DEFAULT_WS_PATH: &'static str = "/band";

/// How long, in seconds, a source of datagrams may be silent.
pub const DEFAULT_PEER_TTL_SECS: u64 = 15;

/// How often, in seconds, a hub looks for silent sources.
pub const DEFAULT_PRUNE_SECS: u64 = 5;

/// The most bands at once.
pub const DEFAULT_MAX_BANDS: usize = 4096;

/// The most peers in a band.
pub const DEFAULT_MAX_PEERS_PER_BAND: usize = 256;

/// How many packets wait for a connection.
pub const DEFAULT_CONN_QUEUE: usize = 1024;

/// How many packets a source of datagrams must have sent before packets are relayed to it.
pub const DEFAULT_UDP_VALIDATION_PACKETS: u32 = 2;

/// Where a hub listens for datagrams.
#[derive(Debug)]
pub enum UdpBind {
    /// Nowhere.
    Off,
    /// Where it does unless told otherwise.
    Default,
    /// At this address, if it is one.
    At(String),
}

/// The settings of a hub as they were given.
#[derive(Debug)]
pub struct HubVars {
    pub bind: Option<String>,
    pub ws_bind: Option<String>,
    pub ws_path: Option<String>,
    pub ws_tls: Option<String>,
    pub wt_bind: Option<String>,
    pub unix_dir: Option<String>,
    pub tls_cert: Option<String>,
    pub tls_key: Option<String>,
    pub tls_sans: Option<String>,
    pub peer_ttl_secs: Option<String>,
    pub prune_secs: Option<String>,
    pub conn_queue: Option<String>,
    pub max_bands: Option<String>,
    pub max_peers_per_band: Option<String>,
    pub udp_validation_packets: Option<String>,
}

/// The settings of a hub.
#[derive(Debug)]
pub struct Config {
    pub udp_bind: UdpBind,
    /// Where it listens for WebSocket connections.
    pub ws_bind: Option<String>,
    pub ws_path: String,
    /// Whether these are encrypted here, and not by someone in front.
    pub ws_tls: bool,
    /// Where it listens for WebTransport sessions.
    pub wt_bind: Option<String>,
    /// Where it puts its local sockets.
    pub unix_dir: Option<String>,
    pub peer_ttl_secs: u64,
    pub prune_secs: u64,
    pub conn_queue: usize,
    pub limits: Limits,
    pub tls_cert_path: Option<String>,
    pub tls_key_path: Option<String>,
    /// The names that a certificate of its own is for.
    pub tls_sans: Vec<String>,
}

/// The content of a setting, if there is one and it is not empty.
pub open spec fn given(v: Option<String>) -> Option<Seq<char>> {
    match v {
        Some(s) => if s@.len() > 0 {
            Some(s@)
        } else {
            None
        },
        None => None,
    }
}

/// The content of text, if there is one.
pub open spec fn content(v: Option<String>) -> Option<Seq<char>> {
    match v {
        Some(s) => Some(s@),
        None => None,
    }
}

/// The number that a setting gives, or the default.
pub open spec fn number_or(v: Option<Seq<char>>, limit: nat, default: nat) -> nat {
    match v {
        Some(s) => match text::number_of(text::trimmed(s)) {
            Some(n) => if n <= limit {
                n
            } else {
                default
            },
            None => default,
        },
        None => default,
    }
}

/// Whether a setting says yes.
pub open spec fn says_yes(v: Option<Seq<char>>) -> bool {
    match v {
        Some(s) => {
            let low = text::lowered(s);
            low == "1"@ || low == "true"@ || low == "yes"@ || low == "on"@
        },
        None => false,
    }
}

/// The address that a setting gives; none where it says `off`.
pub open spec fn address_in(v: Option<Seq<char>>) -> Option<Seq<char>> {
    match v {
        Some(s) => if text::lowered(text::trimmed(s)) == "off"@ {
            None
        } else {
            Some(text::trimmed(s))
        },
        None => None,
    }
}

/// The number that text writes, white space around it or not; the default where there is no
/// text or it writes none.
pub fn parse_or<T: Number>(s: Option<String>, default: T) -> (r: T)
    ensures
        r.value() == number_or(content(s), T::limit(), default.value()),
{
    match s {
        Some(s) => {
            let chars = chars_of(s.as_str());
            match parse_number(trim(chars.as_slice()), T::greatest()) {
                Some(n) => T::of(n),
                None => default,
            }
        },
        None => default,
    }
}

fn given_text(v: Option<String>) -> (r: Option<String>)
    ensures
        content(r) == given(v),
{
    match v {
        Some(s) => {
            if s.as_str().unicode_len() > 0 {
                Some(s)
            } else {
                None
            }
        },
        None => None,
    }
}

/// Whether a setting says yes: `1`, `true`, `yes` or `on`, in letters of either case.
pub fn env_bool(v: Option<String>) -> (r: bool)
    ensures
        r == says_yes(given(v)),
{
    match given_text(v) {
        Some(s) => {
            let chars = chars_of(s.as_str());
            is_lowered(chars.as_slice(), "1") || is_lowered(chars.as_slice(), "true")
                || is_lowered(chars.as_slice(), "yes") || is_lowered(chars.as_slice(), "on")
        },
        None => false,
    }
}

/// The address that a setting gives; none where there is none or it says `off`.
pub fn opt_addr(v: Option<String>) -> (r: Option<String>)
    ensures
        content(r) == address_in(given(v)),
{
    match given_text(v) {
        Some(s) => {
            let chars = chars_of(s.as_str());
            let t = trim(chars.as_slice());
            if is_lowered(t, "off") {
                None
            } else {
                Some(text_of(t))
            }
        },
        None => None,
    }
}

/// Where a hub listens for datagrams, by its setting: nowhere where that says `off`, and where
/// it does by default where it is empty. White space around it does not count.
pub fn resolve_udp_bind(raw: Option<String>) -> (r: UdpBind)
    ensures
        match raw {
            None => r is Default,
            Some(s) => {
                let t = text::trimmed(s@);
                if text::lowered(t) == "off"@ {
                    r is Off
                } else if t.len() == 0 {
                    r is Default
                } else {
                    r matches UdpBind::At(a) && a@ == t
                }
            },
        },
{
    match raw {
        None => UdpBind::Default,
        Some(s) => {
            let chars = chars_of(s.as_str());
            let t = trim(chars.as_slice());
            if is_lowered(t, "off") {
                UdpBind::Off
            } else if t.len() == 0 {
                UdpBind::Default
            } else {
                UdpBind::At(text_of(t))
            }
        },
    }
}

/// The directory that a setting gives; none where it says `off`.
pub open spec fn dir_in(v: Option<Seq<char>>) -> Option<Seq<char>> {
    match v {
        Some(s) => if text::lowered(s) == "off"@ {
            None
        } else {
            Some(s)
        },
        None => None,
    }
}

/// The names that a setting gives, or `localhost`.
pub open spec fn sans_in(v: Option<Seq<char>>) -> Seq<Seq<char>> {
    match v {
        Some(s) => if text::list_of(s).len() > 0 {
            text::list_of(s)
        } else {
            seq!["localhost"@]
        },
        None => seq!["localhost"@],
    }
}

fn localhost() -> (v: Vec<String>)
    ensures
        text::texts(v@) == seq!["localhost"@],
{
    let mut v: Vec<String> = Vec::new();
    v.push("localhost".to_owned());
    assert(text::texts(v@) =~= seq!["localhost"@]);
    v
}

fn sans_from(v: Option<String>) -> (r: Vec<String>)
    ensures
        text::texts(r@) == sans_in(given(v)),
{
    match given_text(v) {
        Some(s) => {
            let list = comma_list(s.as_str());
            if list.len() > 0 {
                list
            } else {
                localhost()
            }
        },
        None => localhost(),
    }
}

fn dir_from(v: Option<String>) -> (r: Option<String>)
    ensures
        content(r) == dir_in(given(v)),
{
    match given_text(v) {
        Some(s) => {
            let chars = chars_of(s.as_str());
            if is_lowered(chars.as_slice(), "off") {
                None
            } else {
                Some(s)
            }
        },
        None => None,
    }
}

/// The path that a setting gives, or the default.
pub open spec fn path_in(v: Option<Seq<char>>) -> Seq<char> {
    match v {
        Some(s) => s,
        None => DEFAULT_WS_PATH@,
    }
}

fn path_from(v: Option<String>) -> (r: String)
    ensures
        r@ == path_in(given(v)),
{
    match given_text(v) {
        Some(s) => s,
        None => DEFAULT_WS_PATH.to_owned(),
    }
}

fn number_from<T: Number>(v: Option<String>, default: T) -> (r: T)
    ensures
        r.value() == number_or(given(v), T::limit(), default.value()),
{
    parse_or(given_text(v), default)
}

/// Where a hub has its certificate from.
#[derive(Debug)]
pub enum TlsSource {
    /// From these files: the certificate and its key.
    Files(String, String),
    /// It makes one, for these names.
    SelfSigned(Vec<String>),
}

/// Whether a configuration is the one that settings give.
pub open spec fn configured(c: Config, vars: HubVars) -> bool {
    &&& match vars.bind {
        None => c.udp_bind is Default,
        Some(s) => {
            let t = text::trimmed(s@);
            if text::lowered(t) == "off"@ {
                c.udp_bind is Off
            } else if t.len() == 0 {
                c.udp_bind is Default
            } else {
                c.udp_bind matches UdpBind::At(a) && a@ == t
            }
        },
    }
    &&& content(c.ws_bind) == address_in(given(vars.ws_bind))
    &&& c.ws_path@ == path_in(given(vars.ws_path))
    &&& c.ws_tls == says_yes(given(vars.ws_tls))
    &&& content(c.wt_bind) == address_in(given(vars.wt_bind))
    &&& content(c.unix_dir) == dir_in(given(vars.unix_dir))
    &&& c.peer_ttl_secs == number_or(
        given(vars.peer_ttl_secs),
        u64::MAX as nat,
        DEFAULT_PEER_TTL_SECS as nat,
    )
    &&& c.prune_secs == number_or(
        given(vars.prune_secs),
        u64::MAX as nat,
        DEFAULT_PRUNE_SECS as nat,
    )
    &&& c.conn_queue == number_or(
        given(vars.conn_queue),
        usize::MAX as nat,
        DEFAULT_CONN_QUEUE as nat,
    )
    &&& c.limits.max_bands == number_or(
        given(vars.max_bands),
        usize::MAX as nat,
        DEFAULT_MAX_BANDS as nat,
    )
    &&& c.limits.max_peers_per_band == number_or(
        given(vars.max_peers_per_band),
        usize::MAX as nat,
        DEFAULT_MAX_PEERS_PER_BAND as nat,
    )
    &&& c.limits.udp_validation_packets == number_or(
        given(vars.udp_validation_packets),
        u32::MAX as nat,
        DEFAULT_UDP_VALIDATION_PACKETS as nat,
    )
    &&& content(c.tls_cert_path) == given(vars.tls_cert)
    &&& content(c.tls_key_path) == given(vars.tls_key)
    &&& text::texts(c.tls_sans@) == sans_in(given(vars.tls_sans))
}

/// A setting that writes a number within bounds is heeded; one that writes a greater one, or none,
/// is as good as none.
pub proof fn lemma_number_heeded(n: nat, limit: nat, default: nat, s: Seq<char>)
    ensures
        n <= limit ==> number_or(Some(text::decimal_of(n)), limit, default) == n,
        n > limit ==> number_or(Some(text::decimal_of(n)), limit, default) == default,
        text::number_of(text::trimmed(s)) is None ==> number_or(Some(s), limit, default) == default,
        number_or(None, limit, default) == default,
{
    text::lemma_decimal_round_trip(n);
    text::lemma_digits_stay(text::decimal_of(n));
}

/// The case of letters has no bearing on whether a setting says yes or says `off`.
pub proof fn lemma_case_has_no_bearing(s: Seq<char>, t: Seq<char>)
    requires
        text::lowered(s) == text::lowered(t),
    ensures
        says_yes(Some(s)) == says_yes(Some(t)),
        dir_in(Some(s)) is None == dir_in(Some(t)) is None,
{
}

/// A hub without settings listens for datagrams where hubs do, and for nothing else, and goes by
/// the defaults.
pub proof fn lemma_unset_is_default(c: Config, vars: HubVars)
    requires
        configured(c, vars),
        vars.bind is None,
        vars.ws_bind is None,
        vars.ws_path is None,
        vars.ws_tls is None,
        vars.wt_bind is None,
        vars.unix_dir is None,
        vars.tls_cert is None,
        vars.tls_key is None,
        vars.tls_sans is None,
        vars.peer_ttl_secs is None,
        vars.prune_secs is None,
        vars.conn_queue is None,
        vars.max_bands is None,
        vars.max_peers_per_band is None,
        vars.udp_validation_packets is None,
    ensures
        c.udp_bind is Default,
        c.ws_bind is None,
        c.ws_path@ == DEFAULT_WS_PATH@,
        !c.ws_tls,
        c.wt_bind is None,
        c.unix_dir is None,
        c.peer_ttl_secs == DEFAULT_PEER_TTL_SECS,
        c.prune_secs == DEFAULT_PRUNE_SECS,
        c.conn_queue == DEFAULT_CONN_QUEUE,
        c.limits.max_bands == DEFAULT_MAX_BANDS,
        c.limits.max_peers_per_band == DEFAULT_MAX_PEERS_PER_BAND,
        c.limits.udp_validation_packets == DEFAULT_UDP_VALIDATION_PACKETS,
        c.tls_cert_path is None,
        c.tls_key_path is None,
        text::texts(c.tls_sans@) == seq!["localhost"@],
{
}

/// Whether a hub with these settings needs a certificate.
pub open spec fn wants_certificate(c: Config) -> bool {
    c.wt_bind is Some || c.ws_bind is Some && c.ws_tls
}

/// A hub needs a certificate if it offers sessions that are always encrypted, or connections that it
/// encrypts itself; encryption that nothing is offered under needs none.
pub proof fn lemma_certificate_wanted(c: Config)
    ensures
        c.wt_bind is Some ==> wants_certificate(c),
        c.ws_bind is Some && c.ws_tls ==> wants_certificate(c),
        c.wt_bind is None && c.ws_bind is None ==> !wants_certificate(c),
        c.wt_bind is None && !c.ws_tls ==> !wants_certificate(c),
{
}

/// Whether a setting writes a number in decimal.
pub open spec fn writes(v: Option<String>, n: nat) -> bool {
    v matches Some(s) && s@ == text::decimal_of(n)
}

/// Every setting that gives a number within bounds is heeded, each for what it is for.
pub proof fn lemma_numbers_heeded(c: Config, vars: HubVars, n: nat)
    requires
        configured(c, vars),
        n <= u32::MAX,
    ensures
        writes(vars.peer_ttl_secs, n) ==> c.peer_ttl_secs == n,
        writes(vars.prune_secs, n) ==> c.prune_secs == n,
        writes(vars.conn_queue, n) ==> c.conn_queue == n,
        writes(vars.max_bands, n) ==> c.limits.max_bands == n,
        writes(vars.max_peers_per_band, n) ==> c.limits.max_peers_per_band == n,
        writes(vars.udp_validation_packets, n) ==> c.limits.udp_validation_packets == n,
{
    lemma_number_heeded(n, u32::MAX as nat, 0, Seq::empty());
    text::lemma_decimal_round_trip(n);
    text::lemma_digits_stay(text::decimal_of(n));
}

/// Every setting that gives text is heeded, each for what it is for: the path, the certificate and its
/// key, the directory unless it says `off`, and the addresses, without white space around them,
/// unless they say `off`. Names are those of the list, and encryption is as the setting says.
pub proof fn lemma_texts_heeded(c: Config, vars: HubVars)
    requires
        configured(c, vars),
    ensures
        vars.ws_path matches Some(s) ==> s@.len() > 0 ==> c.ws_path@ == s@,
        vars.tls_cert matches Some(s) ==> s@.len() > 0 ==> content(c.tls_cert_path) == Some(s@),
        vars.tls_key matches Some(s) ==> s@.len() > 0 ==> content(c.tls_key_path) == Some(s@),
        vars.unix_dir matches Some(s) ==> s@.len() > 0 ==> content(c.unix_dir) == (
        if text::lowered(s@) == "off"@ {
            None
        } else {
            Some(s@)
        }),
        vars.ws_bind matches Some(s) ==> s@.len() > 0 ==> content(c.ws_bind) == (if text::lowered(
            text::trimmed(s@),
        ) == "off"@ {
            None
        } else {
            Some(text::trimmed(s@))
        }),
        vars.wt_bind matches Some(s) ==> s@.len() > 0 ==> content(c.wt_bind) == (if text::lowered(
            text::trimmed(s@),
        ) == "off"@ {
            None
        } else {
            Some(text::trimmed(s@))
        }),
        vars.tls_sans matches Some(s) ==> text::list_of(s@).len() > 0 ==> text::texts(c.tls_sans@)
            == text::list_of(s@),
        vars.ws_tls matches Some(s) ==> (c.ws_tls <==> says_yes(Some(s@))),
        vars.bind matches Some(s) ==> text::lowered(text::trimmed(s@)) == "off"@ ==> c.udp_bind
            is Off,
{
    reveal_strlit("1");
    reveal_strlit("true");
    reveal_strlit("yes");
    reveal_strlit("on");
    if let Some(s) = vars.ws_tls {
        assert(text::lowered(s@).len() == s@.len());
    }
    if let Some(s) = vars.tls_sans {
        if s@.len() == 0 {
            assert(text::split_at_char(s@, ',') =~= seq![s@]);
            let parts = seq![s@];
            assert(parts.drop_last() =~= Seq::empty());
            assert(text::words(parts.drop_last()) =~= Seq::empty());
            assert(text::trimmed(s@).len() == 0);
        }
    }
}

/// A setting that is given and not `off` is where a hub listens, without the white space around
/// it; `off` in any case, or nothing, is nowhere.
pub proof fn lemma_address_heeded(s: Seq<char>)
    ensures
        text::lowered(text::trimmed(s)) != "off"@ ==> address_in(Some(s)) == Some(
            text::trimmed(s),
        ),
        text::lowered(text::trimmed(s)) == "off"@ ==> address_in(Some(s)) is None,
        address_in(None) is None,
{
}

impl HubVars {
    /// No settings at all.
    pub fn none() -> (r: Self)
        ensures
            r == (HubVars {
                bind: None,
                ws_bind: None,
                ws_path: None,
                ws_tls: None,
                wt_bind: None,
                unix_dir: None,
                tls_cert: None,
                tls_key: None,
                tls_sans: None,
                peer_ttl_secs: None,
                prune_secs: None,
                conn_queue: None,
                max_bands: None,
                max_peers_per_band: None,
                udp_validation_packets: None,
            }),
    {
        HubVars {
            bind: None,
            ws_bind: None,
            ws_path: None,
            ws_tls: None,
            wt_bind: None,
            unix_dir: None,
            tls_cert: None,
            tls_key: None,
            tls_sans: None,
            peer_ttl_secs: None,
            prune_secs: None,
            conn_queue: None,
            max_bands: None,
            max_peers_per_band: None,
            udp_validation_packets: None,
        }
    }
}

impl Config {
    /// The configuration that settings give.
    pub fn from_vars(vars: HubVars) -> (c: Self)
        ensures
            configured(c, vars),
    {
        Config {
            udp_bind: resolve_udp_bind(vars.bind),
            ws_bind: opt_addr(vars.ws_bind),
            ws_path: path_from(vars.ws_path),
            ws_tls: env_bool(vars.ws_tls),
            wt_bind: opt_addr(vars.wt_bind),
            unix_dir: dir_from(vars.unix_dir),
            peer_ttl_secs: number_from(vars.peer_ttl_secs, DEFAULT_PEER_TTL_SECS),
            prune_secs: number_from(vars.prune_secs, DEFAULT_PRUNE_SECS),
            conn_queue: number_from(vars.conn_queue, DEFAULT_CONN_QUEUE),
            limits: Limits {
                max_bands: number_from(vars.max_bands, DEFAULT_MAX_BANDS),
                max_peers_per_band: number_from(
                    vars.max_peers_per_band,
                    DEFAULT_MAX_PEERS_PER_BAND,
                ),
                udp_validation_packets: number_from(
                    vars.udp_validation_packets,
                    DEFAULT_UDP_VALIDATION_PACKETS,
                ),
            },
            tls_cert_path: given_text(vars.tls_cert),
            tls_key_path: given_text(vars.tls_key),
            tls_sans: sans_from(vars.tls_sans),
        }
    }

    /// The configuration once it is known which of the texts that stand for addresses are
    /// some: where that for datagrams is none, the default is taken, and where one of the
    /// others is none, it is left out.
    pub fn checked(self, udp_parses: bool, ws_parses: bool, wt_parses: bool) -> (c: Self)
        ensures
            c == (Config {
                udp_bind: if self.udp_bind is At && !udp_parses {
                    UdpBind::Default
                } else {
                    self.udp_bind
                },
                ws_bind: if ws_parses {
                    self.ws_bind
                } else {
                    None
                },
                wt_bind: if wt_parses {
                    self.wt_bind
                } else {
                    None
                },
                ..self
            }),
    {
        let mut c = self;
        if !udp_parses {
            if let UdpBind::At(_) = &c.udp_bind {
                c.udp_bind = UdpBind::Default;
            }
        }
        if !ws_parses {
            c.ws_bind = None;
        }
        if !wt_parses {
            c.wt_bind = None;
        }
        c
    }

    /// Whether the hub needs a certificate.
    pub fn needs_tls(&self) -> (r: bool)
        ensures
            r == (self.wt_bind is Some || self.ws_bind is Some && self.ws_tls),
            r == wants_certificate(*self),
    {
        self.wt_bind.is_some() || (self.ws_bind.is_some() && self.ws_tls)
    }

    /// Where the hub has its certificate from: from files where both are given.
    pub fn tls_source(&self) -> (r: TlsSource)
        ensures
            match (self.tls_cert_path, self.tls_key_path) {
                (Some(c), Some(k)) => r matches TlsSource::Files(a, b) && a@ == c@ && b@ == k@,
                _ => r matches TlsSource::SelfSigned(sans) && text::texts(sans@) == text::texts(
                    self.tls_sans@,
                ),
            },
    {
        match (&self.tls_cert_path, &self.tls_key_path) {
            (Some(c), Some(k)) => TlsSource::Files(c.clone(), k.clone()),
            _ => TlsSource::SelfSigned(copy_texts(&self.tls_sans)),
        }
    }

    /// The certificate of the hub: the one in the PEM texts of the certificate and its key,
    /// where they were read, and else one that it makes for as long as it may.
    pub fn tls_identity(&self, files: Option<(String, String)>) -> (r: Result<HubCert, TlsError>)
        ensures
            match files {
                Some((cert, key)) => tls::taken(cert@, key@, r),
                None => match r {
                    Ok(c) => {
                        &&& c.wf()
                        &&& tls::made_for(
                            c.cert_der@,
                            tls::texts_of(self.tls_sans@),
                            MAX_SELF_SIGNED_DAYS as int,
                        )
                        &&& tls::certified(c.cert_der@).public_key == tls::public_half(c.key_der@)
                        &&& tls::pem_content(c.cert_pem@, "CERTIFICATE"@) == Some(c.cert_der@)
                        &&& tls::pem_content(c.key_pem@, "PRIVATE KEY"@) == Some(c.key_der@)
                    },
                    Err(e) => e is Rcgen,
                },
            },
    {
        match files {
            Some((cert, key)) => from_pem(cert.as_str(), key.as_str()),
            None => {
                let mut sans: Vec<&str> = Vec::new();
                for i in 0..self.tls_sans.len()
                    invariant
                        sans@.len() == i,
                        forall|k: int| 0 <= k < i ==> (#[trigger] sans@[k])@ == self.tls_sans@[k]@,
                {
                    sans.push(self.tls_sans[i].as_str());
                }
                assert(tls::names_of(sans@) =~= tls::texts_of(self.tls_sans@));
                self_signed(sans.as_slice(), MAX_SELF_SIGNED_DAYS)
            },
        }
    }
}

impl Default for Config {
    fn default() -> (c: Self)
        ensures
            c.udp_bind is Default,
            c.ws_bind is None,
            c.ws_path@ == DEFAULT_WS_PATH@,
            !c.ws_tls,
            c.wt_bind is None,
            c.unix_dir is None,
            c.peer_ttl_secs == DEFAULT_PEER_TTL_SECS,
            c.prune_secs == DEFAULT_PRUNE_SECS,
            c.conn_queue == DEFAULT_CONN_QUEUE,
            c.limits == (Limits {
                max_bands: DEFAULT_MAX_BANDS,
                max_peers_per_band: DEFAULT_MAX_PEERS_PER_BAND,
                udp_validation_packets: DEFAULT_UDP_VALIDATION_PACKETS,
            }),
            c.tls_cert_path is None,
            c.tls_key_path is None,
            text::texts(c.tls_sans@) == seq!["localhost"@],
    {
        Config::from_vars(HubVars::none())
    }
}

} // verus!
