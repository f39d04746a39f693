//! The handshake of a session, its records and its datagrams.
use telesthete::session::crypto;
use telesthete::session::crypto::{DatagramKey, RecordKey};

const PSK_A: [u8; 32] = [7u8; 32];
const PSK_B: [u8; 32] = [9u8; 32];

/// Runs the handshake in memory and returns both sessions.
fn run(
    client_psk: [u8; 32],
    host_psk: [u8; 32],
) -> Result<(crypto::Session, crypto::Session), crypto::HsError> {
    let hs = crypto::ClientHandshake::new(client_psk);
    let hello1 = hs.hello1(40000);
    let (hello2, host_sess, pending, _client_udp) = crypto::host_respond(&hello1, host_psk, 40001)?;
    let (client_sess, _host_udp, confirm3) = hs.recv_hello2(&hello2)?;
    pending.verify(&confirm3)?;
    Ok((client_sess, host_sess))
}

fn failure<T>(r: Result<T, crypto::HsError>) -> crypto::HsError {
    match r {
        Ok(_) => panic!("expected an error"),
        Err(e) => e,
    }
}

#[test]
fn good_psk_agrees_on_keys() {
    let (c, h) = run(PSK_A, PSK_A).expect("handshake should succeed");
    assert_eq!(c.k_tcp_tx, h.k_tcp_rx);
    assert_eq!(c.k_tcp_rx, h.k_tcp_tx);
    assert_eq!(c.k_udp_tx, h.k_udp_rx);
    assert_eq!(c.session_id, h.session_id);
    assert_ne!(c.k_tcp_tx, [0u8; 32]);
}

#[test]
fn wrong_psk_rejected() {
    let err = failure(run(PSK_A, PSK_B));
    assert_eq!(err, crypto::HsError::BadConfirm);
}

#[test]
fn client_rejects_wrong_host_psk() {
    let hs = crypto::ClientHandshake::new(PSK_A);
    let hello1 = hs.hello1(1234);
    let (hello2, _hsess, _pending, _u) = match crypto::host_respond(&hello1, PSK_B, 1) {
        Ok(answer) => answer,
        Err(e) => panic!("{e:?}"),
    };
    assert_eq!(failure(hs.recv_hello2(&hello2)), crypto::HsError::BadConfirm);
}

#[test]
fn replayed_handshake_rejected() {
    let hs = crypto::ClientHandshake::new(PSK_A);
    let hello1 = hs.hello1(5000);
    let (hello2_a, _sa, _pa, _ua) = match crypto::host_respond(&hello1, PSK_A, 1) {
        Ok(answer) => answer,
        Err(e) => panic!("{e:?}"),
    };
    // The same first message reaches a fresh host instance.
    let (hello2_b, _sb, pending_b, _ub) = match crypto::host_respond(&hello1, PSK_A, 1) {
        Ok(answer) => answer,
        Err(e) => panic!("{e:?}"),
    };
    assert_eq!(failure(pending_b.verify(&[0u8; 32])), crypto::HsError::BadConfirm);
    assert_ne!(&hello2_b[0..32], &hello2_a[0..32]);
}

#[test]
fn tcp_record_roundtrip() {
    let (c, h) = run(PSK_A, PSK_A).unwrap();
    let mut c_tx = RecordKey::new(c.k_tcp_tx);
    let mut h_rx = RecordKey::new(h.k_tcp_rx);
    for i in 0..5u8 {
        let msg = vec![i; 100 + i as usize];
        let ct = c_tx.seal(&msg);
        assert_eq!(h_rx.open(&ct).unwrap(), msg);
    }
    let mut ct = c_tx.seal(b"secret");
    ct[0] ^= 0xFF;
    assert!(h_rx.open(&ct).is_none());
}

#[test]
fn udp_datagram_roundtrip_and_forgery() {
    let (c, h) = run(PSK_A, PSK_A).unwrap();
    let tx = DatagramKey::new(c.k_udp_tx, true);
    let rx = DatagramKey::new(h.k_udp_rx, false);
    let ct = tx.seal(0, 3, 42, b"motion-payload");
    assert_eq!(rx.open(0, 3, 42, &ct).unwrap(), b"motion-payload");
    assert!(rx.open(0, 3, 43, &ct).is_none());
    assert!(rx.open(0, 4, 42, &ct).is_none());
}

fn hex(bytes: &[u8]) -> String {
    bytes.iter().map(|b| format!("{b:02x}")).collect()
}

#[test]
fn hello1_carries_the_public_key_of_the_secret() {
    let mut secret = [0u8; 32];
    for i in 0..32 {
        secret[i] = i as u8 + 1;
    }
    let hello1 = crypto::ClientHandshake::from_parts(PSK_A, secret, [3; 16]).hello1(0x0201);
    assert_eq!(hello1.len(), crypto::HELLO1_LEN);
    assert_eq!(hello1[0], crypto::VERSION);
    assert_eq!(
        hex(&hello1[1..33]),
        "07a37cbc142093c8b755dc1b10e86cb426374ad16aa853ed0bdfc0b2b86d1c7c"
    );
    assert_eq!(&hello1[33..49], &[3u8; 16][..]);
    assert_eq!(&hello1[49..], &[0x01, 0x02][..]);
}

#[test]
fn records_are_sealed_under_a_counter() {
    let mut key = RecordKey::new([5; 32]);
    assert_eq!(hex(&key.seal(b"abc")), "b054fd275cea580eb12f81c2b059292faacc1f");
    assert_eq!(hex(&key.seal(b"abc")), "0e0d3aa2a75acfc0a4ce62f080bd04ce3ed640");
}

#[test]
fn datagrams_are_sealed_under_their_header() {
    let key = DatagramKey::new([5; 32], true);
    assert_eq!(hex(&key.seal(0, 3, 42, b"abc")), "853bc23102543e94497a279288fa84982ab554");
}

#[test]
fn malformed_messages_are_refused() {
    let hs = crypto::ClientHandshake::new(PSK_A);
    let mut hello1 = hs.hello1(1);
    assert_eq!(failure(crypto::host_respond(&hello1[..50], PSK_A, 1)), crypto::HsError::ShortMessage);
    hello1[0] = 9;
    assert_eq!(failure(crypto::host_respond(&hello1, PSK_A, 1)), crypto::HsError::BadVersion);
    assert_eq!(failure(crypto::host_respond(&[], PSK_A, 1)), crypto::HsError::BadVersion);
    assert_eq!(failure(hs.recv_hello2(&[0u8; 81])), crypto::HsError::ShortMessage);
}

#[test]
fn same_inputs_give_the_same_session() {
    let client = crypto::ClientHandshake::from_parts(PSK_A, [1; 32], [2; 16]);
    let hello1 = client.hello1(7);
    let first = crypto::host_respond_with(&hello1, PSK_A, 8, [4; 32], [5; 16]);
    let second = crypto::host_respond_with(&hello1, PSK_A, 8, [4; 32], [5; 16]);
    let (h2a, sa, pending, port) = match first {
        Ok(answer) => answer,
        Err(e) => panic!("{e:?}"),
    };
    let (h2b, sb, _, _) = match second {
        Ok(answer) => answer,
        Err(e) => panic!("{e:?}"),
    };
    assert_eq!(port, 7);
    assert_eq!(h2a, h2b);
    assert_eq!(sa.session_id, sb.session_id);
    assert_eq!(h2a.len(), crypto::HELLO2_LEN);
    assert_eq!(hex(&sa.session_id), "bc16607554adb501cad928efe968de29");
    assert_eq!(
        hex(&sa.k_tcp_rx),
        "c30227d8e03833302868c8f51f91ae4a3d9fb79acedb9c8ab9dd1a900786875b"
    );
    assert_eq!(
        hex(&h2a[48..80]),
        "27ec3387de4d268bed0e0c95dea91eb05a9eca7672a6c3bfca5f817331315257"
    );
    let (session, host_port, confirm) = match client.recv_hello2(&h2a) {
        Ok(out) => out,
        Err(e) => panic!("{e:?}"),
    };
    assert_eq!(host_port, 8);
    assert_eq!(session.k_tcp_tx, sa.k_tcp_rx);
    assert_eq!(session.k_udp_rx, sa.k_udp_tx);
    assert_eq!(
        hex(&confirm),
        "7b3f8d39acf8807bc59bd4263a8fa24a5afd160f4abe73a7dee5ccef7f2fc6cc"
    );
    assert!(pending.verify(&confirm).is_ok());
    assert_eq!(failure(pending.verify(&confirm[..31])), crypto::HsError::ShortMessage);
}

#[test]
fn comparison_covers_length_and_content() {
    assert!(crypto::ct_eq(b"abc", b"abc"));
    assert!(!crypto::ct_eq(b"abc", b"abd"));
    assert!(!crypto::ct_eq(b"abc", b"ab"));
}
