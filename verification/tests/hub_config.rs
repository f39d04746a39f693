//! The settings of a hub.
use telesthete::hub::config::{
    env_bool, opt_addr, parse_or, resolve_udp_bind, Config, HubVars, TlsSource, UdpBind,
    DEFAULT_PEER_TTL_SECS, DEFAULT_UDP_BIND,
};

#[test]
fn env_parsing_is_lenient() {
    assert_eq!(parse_or::<u64>(Some("banana".into()), 15), 15);
    assert_eq!(parse_or::<u64>(Some("42".into()), 15), 42);
    assert_eq!(parse_or::<u64>(Some("  7 ".into()), 15), 7);
    assert_eq!(parse_or::<u64>(None, 15), 15);
}

/// Where the hub listens for datagrams, given whether the text is an address.
fn resolved(raw: Option<&str>, parses: bool) -> Option<String> {
    let vars = HubVars { bind: raw.map(|s| s.to_string()), ..HubVars::none() };
    match Config::from_vars(vars).checked(parses, true, true).udp_bind {
        UdpBind::Off => None,
        UdpBind::Default => Some(DEFAULT_UDP_BIND.to_string()),
        UdpBind::At(a) => Some(a),
    }
}

#[test]
fn hub_bind_off_is_honored_despite_whitespace() {
    let dflt = Some(DEFAULT_UDP_BIND.to_string());
    assert_eq!(resolved(Some(" off"), false), None);
    assert_eq!(resolved(Some("OFF\n"), false), None);
    assert_eq!(resolved(Some("\toff "), false), None);
    assert_eq!(resolved(Some("127.0.0.1:9"), true), Some("127.0.0.1:9".to_string()));
    assert_eq!(resolved(Some("  "), false), dflt);
    assert_eq!(resolved(Some("garbage"), false), dflt);
    assert_eq!(resolved(None, false), dflt);
}

#[test]
fn default_ttl_is_peer_timeout() {
    assert_eq!(DEFAULT_PEER_TTL_SECS, 15);
}

#[test]
fn defaults_are_sane() {
    let c = Config::default();
    assert!(matches!(c.udp_bind, UdpBind::Default));
    assert_eq!(DEFAULT_UDP_BIND, "0.0.0.0:7474");
    assert!(c.ws_bind.is_none() && c.wt_bind.is_none() && c.unix_dir.is_none());
    assert!(!c.needs_tls());
    assert!(c.limits.max_bands > 0 && c.limits.max_peers_per_band > 0);
}

#[test]
fn self_signed_identity_resolves() {
    let c = Config::default();
    let cert = c.tls_identity(None).unwrap();
    assert_eq!(cert.sha256.len(), 32);
    let again = c.tls_identity(Some((cert.cert_pem, cert.key_pem))).unwrap();
    assert_eq!(again.cert_der, cert.cert_der);
}

#[test]
fn switches_and_addresses() {
    for yes in ["1", "true", "YES", "On"] {
        assert!(env_bool(Some(yes.to_string())));
    }
    for no in ["", "0", "no", " true"] {
        assert!(!env_bool(Some(no.to_string())));
    }
    assert!(!env_bool(None));
    assert_eq!(opt_addr(Some(" Off ".to_string())), None);
    assert_eq!(opt_addr(Some("".to_string())), None);
    assert_eq!(opt_addr(Some(" 1.2.3.4:5 ".to_string())), Some("1.2.3.4:5".to_string()));
    assert!(matches!(resolve_udp_bind(Some("x:1".to_string())), UdpBind::At(a) if a == "x:1"));
}

#[test]
fn settings_are_read() {
    let vars = HubVars {
        ws_bind: Some("0.0.0.0:80".to_string()),
        ws_path: Some("/x".to_string()),
        ws_tls: Some("on".to_string()),
        unix_dir: Some("OFF".to_string()),
        tls_sans: Some(" a.example , ,b.example".to_string()),
        prune_secs: Some("9".to_string()),
        max_bands: Some("-1".to_string()),
        udp_validation_packets: Some("+3".to_string()),
        ..HubVars::none()
    };
    let c = Config::from_vars(vars);
    assert_eq!(c.ws_bind.as_deref(), Some("0.0.0.0:80"));
    assert_eq!(c.ws_path, "/x");
    assert!(c.ws_tls && c.needs_tls());
    assert_eq!(c.unix_dir, None);
    assert_eq!(c.tls_sans, vec!["a.example".to_string(), "b.example".to_string()]);
    assert_eq!(c.prune_secs, 9);
    assert_eq!(c.limits.max_bands, 4096);
    assert_eq!(c.limits.udp_validation_packets, 3);
    assert!(matches!(c.tls_source(), TlsSource::SelfSigned(names) if names.len() == 2));
    // An address that is none switches the listener off.
    assert!(!c.checked(true, false, true).needs_tls());
}

#[test]
fn files_are_used_where_both_are_given() {
    let vars = HubVars {
        tls_cert: Some("c.pem".to_string()),
        tls_key: Some("k.pem".to_string()),
        tls_sans: Some(",".to_string()),
        ..HubVars::none()
    };
    let c = Config::from_vars(vars);
    assert_eq!(c.tls_sans, vec!["localhost".to_string()]);
    match c.tls_source() {
        TlsSource::Files(cert, key) => assert_eq!((cert, key), ("c.pem".to_string(), "k.pem".to_string())),
        other => panic!("expected files, got {other:?}"),
    }
    let half = HubVars { tls_cert: Some("c.pem".to_string()), ..HubVars::none() };
    assert!(matches!(Config::from_vars(half).tls_source(), TlsSource::SelfSigned(_)));
}
