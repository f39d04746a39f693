//! The reliable channel: frames and the state machine.
use telesthete::channel::{
    ChannelCore, ChannelFrame, ConnState, CHANNEL_HEADER_LEN, DEFAULT_RTO, DEFAULT_WINDOW, FLAG_ACK,
    FLAG_FIN, FLAG_RST, FLAG_SYN, MAX_RETRIES,
};
use telesthete::wire::fragment::{pack_chunk, PARTIAL_LIFETIME};
use telesthete::connection::{ConnEvent, Connection};

fn to_hex(b: &[u8]) -> String {
    b.iter().map(|x| format!("{x:02x}")).collect()
}
fn from_hex(s: &str) -> Vec<u8> {
    (0..s.len())
        .step_by(2)
        .map(|i| u8::from_str_radix(&s[i..i + 2], 16).unwrap())
        .collect()
}

#[test]
fn frame_round_trip() {
    let f = ChannelFrame {
        flags: FLAG_ACK,
        ack_num: 42,
        window: 32,
        seq: 7,
        data: b"payload".to_vec(),
    };
    let bytes = f.serialize();
    assert_eq!(bytes.len(), CHANNEL_HEADER_LEN + 7);
    assert_eq!(ChannelFrame::parse(&bytes).unwrap(), f);
}

#[test]
fn parse_rejects_reserved_bits_and_short() {
    // Any reserved bit (4-7) set → dropped.
    let mut f = ChannelFrame {
        flags: FLAG_ACK | 0x10,
        ack_num: 1,
        window: 32,
        seq: 0,
        data: vec![],
    };
    assert!(ChannelFrame::parse(&f.serialize()).is_none());
    f.flags = 0x80;
    assert!(ChannelFrame::parse(&f.serialize()).is_none());
    // Short buffer → dropped.
    assert!(ChannelFrame::parse(&[0u8; 5]).is_none());
}

#[test]
fn hardcoded_vector() {
    // The layout, byte by byte.
    let f = ChannelFrame {
        flags: 4,
        ack_num: 1,
        window: 32,
        seq: 5,
        data: b"hello".to_vec(),
    };
    let expect = "04000000000000000100200000000000000005".to_string() + &to_hex(b"hello");
    assert_eq!(to_hex(&f.serialize()), expect);
    assert_eq!(ChannelFrame::parse(&from_hex(&expect)).unwrap(), f);
}

fn fresh() -> ChannelCore {
    ChannelCore::new(DEFAULT_WINDOW, DEFAULT_RTO)
}

/// Move every queued frame from `src` into `dst` via serialize→parse→
/// on_frame, exercising the wire codec. Returns how many frames moved.
fn shuttle(src: &mut ChannelCore, dst: &mut ChannelCore) -> usize {
    let frames: Vec<Vec<u8>> = src.outbox.drain(..).collect();
    let n = frames.len();
    for bytes in frames {
        let f = ChannelFrame::parse(&bytes).expect("valid frame");
        dst.on_frame(f);
    }
    n
}

/// Drive a full handshake between a fresh initiator and responder.
fn handshake() -> (ChannelCore, ChannelCore) {
    let mut init = fresh();
    let mut resp = fresh();
    init.connect(); // SYN
    shuttle(&mut init, &mut resp); // SYN → responder, emits SYN|ACK
    shuttle(&mut resp, &mut init); // SYN|ACK → initiator, emits pure ACK
    shuttle(&mut init, &mut resp); // pure ACK → responder
    assert_eq!(init.state, ConnState::Established);
    assert_eq!(resp.state, ConnState::Established);
    (init, resp)
}

#[test]
fn three_way_handshake_seq_and_ack() {
    let mut init = fresh();
    let mut resp = fresh();

    init.connect();
    assert_eq!(init.state, ConnState::SynSent);
    // The first frame: SYN with number 0.
    let syn = ChannelFrame::parse(&init.outbox[0]).unwrap();
    assert_eq!((syn.flags, syn.seq, syn.ack_num), (FLAG_SYN, 0, 0));
    shuttle(&mut init, &mut resp);

    // Responder SYN|ACK: flags=0x05, seq=0, ack=1.
    assert_eq!(resp.state, ConnState::Established);
    let synack = ChannelFrame::parse(&resp.outbox[0]).unwrap();
    assert_eq!(
        (synack.flags, synack.seq, synack.ack_num),
        (FLAG_SYN | FLAG_ACK, 0, 1)
    );
    shuttle(&mut resp, &mut init);
    assert_eq!(init.state, ConnState::Established);
    assert!(init.just_established);

    // Initiator pure ACK: flags=0x04, ack=1, carries seq=1 but unconsumed.
    let ack = ChannelFrame::parse(&init.outbox[0]).unwrap();
    assert_eq!((ack.flags, ack.ack_num), (FLAG_ACK, 1));
    shuttle(&mut init, &mut resp);
    assert!(resp.unacked.is_empty(), "SYN|ACK acked by final ACK");
}

#[test]
fn reliable_in_order_delivery() {
    let (mut init, mut resp) = handshake();
    for i in 0..5u8 {
        init.send_message(&[i, i, i]);
    }
    // Deliver all data frames, plus the ACKs coming back.
    for _ in 0..4 {
        shuttle(&mut init, &mut resp);
        shuttle(&mut resp, &mut init);
    }
    assert_eq!(resp.delivered, (0..5u8).map(|i| vec![i, i, i]).collect::<Vec<_>>());
}

#[test]
fn large_message_fragments_and_reassembles() {
    let (mut init, mut resp) = handshake();
    let msg: Vec<u8> = (0..6000u32).map(|i| (i % 251) as u8).collect();
    init.send_message(&msg);
    // > 1 chunk, so > 1 data frame in flight.
    assert!(init.unacked.len() > 1, "message must fragment");
    for _ in 0..4 {
        shuttle(&mut init, &mut resp);
        shuttle(&mut resp, &mut init);
    }
    assert_eq!(resp.delivered, vec![msg]);
}

#[test]
fn retransmission_recovers_lost_frame() {
    let (mut init, mut resp) = handshake();
    init.send_message(b"needs-retransmit");
    // Simulate total loss of the first copy: drop the outbox.
    init.outbox.clear();
    assert!(init.has_unacked());
    // RTO fires → retransmit the same (flags, seq, data).
    init.on_timeout();
    shuttle(&mut init, &mut resp);
    assert_eq!(resp.delivered, vec![b"needs-retransmit".to_vec()]);
}

#[test]
fn duplicate_frame_delivered_once() {
    let (mut init, mut resp) = handshake();
    init.send_message(b"dup");
    let data_frame = init.outbox[0].clone();
    let f = ChannelFrame::parse(&data_frame).unwrap();
    resp.on_frame(f.clone());
    resp.on_frame(f); // duplicate inner seq → dropped
    assert_eq!(resp.delivered, vec![b"dup".to_vec()]);
}

#[test]
fn cumulative_ack_clears_send_buffer() {
    let (mut init, mut resp) = handshake();
    for i in 0..3u8 {
        init.send_message(&[i]);
    }
    assert_eq!(init.unacked.len(), 3);
    // Responder receives all + acks cumulatively.
    shuttle(&mut init, &mut resp);
    shuttle(&mut resp, &mut init);
    assert!(init.unacked.is_empty(), "cumulative ACK drains send buffer");
}

#[test]
fn out_of_order_frames_reordered() {
    let (mut init, mut resp) = handshake();
    init.send_message(&[10]);
    init.send_message(&[20]);
    let f0 = ChannelFrame::parse(&init.outbox[0]).unwrap();
    let f1 = ChannelFrame::parse(&init.outbox[1]).unwrap();
    // Deliver seq+1 before seq: buffered, then released in order.
    resp.on_frame(f1);
    assert!(resp.delivered.is_empty());
    resp.on_frame(f0);
    assert_eq!(resp.delivered, vec![vec![10], vec![20]]);
}

#[test]
fn close_sends_fin_and_marks_peer_closed() {
    let (mut init, mut resp) = handshake();
    init.close();
    assert_eq!(init.state, ConnState::FinSent);
    shuttle(&mut init, &mut resp);
    assert!(resp.peer_closed, "responder sees the FIN");
}

#[test]
fn reset_closes_the_connection() {
    let (mut init, mut resp) = handshake();
    init.send_message(b"lost");
    let rst = ChannelFrame { flags: FLAG_RST, ack_num: 0, window: 0, seq: 0, data: vec![] };
    init.on_frame(rst);
    assert_eq!(init.state, ConnState::Closed);
    assert!(resp.delivered.is_empty());
    resp.close();
    let fin = ChannelFrame::parse(&resp.outbox[0]).unwrap();
    assert_eq!(fin.flags & FLAG_FIN, FLAG_FIN);
}

#[test]
fn connection_steps_connect_and_deliver() {
    let mut a = Connection::new(DEFAULT_WINDOW, DEFAULT_RTO);
    let mut b = Connection::new(DEFAULT_WINDOW, DEFAULT_RTO);
    let frames = |v: Vec<Vec<u8>>| -> Vec<ChannelFrame> {
        v.iter().map(|f| ChannelFrame::parse(f).unwrap()).collect()
    };
    let syn = frames(a.step(ConnEvent::Connect, 0).outgoing);
    assert_eq!(syn.len(), 1);
    let mut answers = Vec::new();
    for f in syn {
        answers.extend(frames(b.step(ConnEvent::Frame(f), 1).outgoing));
    }
    let mut acks = Vec::new();
    let mut connected = false;
    for f in answers {
        let step = a.step(ConnEvent::Frame(f), 2);
        connected = connected || step.connected;
        acks.extend(frames(step.outgoing));
    }
    assert!(connected);
    for f in acks {
        b.step(ConnEvent::Frame(f), 3);
    }
    let mut got = Vec::new();
    for f in frames(a.step(ConnEvent::Send(b"hi".to_vec()), 4).outgoing) {
        got.extend(b.step(ConnEvent::Frame(f), 5).delivered);
    }
    assert_eq!(got, vec![b"hi".to_vec()]);
}

#[test]
fn timeout_repeats_what_is_unacknowledged() {
    let mut a = Connection::new(DEFAULT_WINDOW, DEFAULT_RTO);
    let first = a.step(ConnEvent::Connect, 0).outgoing;
    assert_eq!(a.deadline, Some(DEFAULT_RTO));
    let again = a.step(ConnEvent::Timeout, DEFAULT_RTO).outgoing;
    assert_eq!(first, again);
}

#[test]
fn reset_connection_retransmits_nothing() {
    let (mut init, _) = handshake();
    init.send_message(b"in flight");
    assert!(init.has_unacked());
    init.outbox.clear();
    let rst = ChannelFrame { flags: FLAG_RST, ack_num: 0, window: 0, seq: 0, data: vec![] };
    init.on_frame(rst);
    assert!(!init.has_unacked());
    init.on_timeout();
    assert!(init.outbox.is_empty());
    assert!(init.peer_closed);
}

#[test]
fn vanished_peer_is_given_up() {
    let mut a = Connection::new(DEFAULT_WINDOW, DEFAULT_RTO);
    a.step(ConnEvent::Connect, 0);
    let mut now = 0;
    for _ in 0..MAX_RETRIES {
        now += DEFAULT_RTO;
        assert_eq!(a.step(ConnEvent::Timeout, now).outgoing.len(), 1);
    }
    let last = a.step(ConnEvent::Timeout, now + DEFAULT_RTO);
    assert!(last.outgoing.is_empty());
    assert!(last.ended);
    assert_eq!(a.deadline, None);
    assert_eq!(a.core.state, ConnState::Closed);
}

#[test]
fn acknowledgment_starts_the_count_of_retries_anew() {
    let (mut init, mut resp) = handshake();
    init.send_message(b"one");
    for _ in 0..MAX_RETRIES {
        init.on_timeout();
    }
    shuttle(&mut init, &mut resp);
    shuttle(&mut resp, &mut init);
    assert_eq!(init.retries, 0);
    assert_eq!(resp.delivered, vec![b"one".to_vec()]);
    init.send_message(b"two");
    init.on_timeout();
    assert_eq!(init.state, ConnState::Established);
}

fn data_frame(seq: u64, id: u8, data: &[u8]) -> ChannelFrame {
    ChannelFrame {
        flags: FLAG_ACK,
        ack_num: 0,
        window: DEFAULT_WINDOW,
        seq,
        data: pack_chunk(&[id; 16], 0, 1, data),
    }
}

#[test]
fn frames_past_the_window_are_not_buffered() {
    let (_, mut resp) = handshake();
    let next = resp.rcv_next;
    resp.on_frame(data_frame(next + DEFAULT_WINDOW as u64, 1, b"far"));
    resp.on_frame(data_frame(u64::MAX, 2, b"last"));
    assert!(resp.recv_buffer.is_empty());
    assert_eq!(resp.outbox.len(), 2, "each is answered by an acknowledgment");
    resp.on_frame(data_frame(next + DEFAULT_WINDOW as u64 - 1, 3, b"near"));
    assert_eq!(resp.recv_buffer.len(), 1);
}

#[test]
fn frames_in_any_order_and_repeated_deliver_each_message_once() {
    let (_, mut resp) = handshake();
    let next = resp.rcv_next;
    let order = [4u64, 2, 2, 0, 4, 1, 0, 3, 1];
    for k in order {
        resp.on_frame(data_frame(next + k, k as u8, &[k as u8]));
    }
    assert_eq!(resp.delivered, vec![vec![0], vec![1], vec![2], vec![3], vec![4]]);
    assert_eq!(resp.rcv_next, next + 5);
}

#[test]
fn opening_frame_with_the_last_number_is_not_taken() {
    let b = Connection::new(DEFAULT_WINDOW, DEFAULT_RTO);
    let syn = |seq| {
        ConnEvent::Frame(ChannelFrame { flags: FLAG_SYN, ack_num: 0, window: 1, seq, data: vec![] })
    };
    assert!(b.can_take(&syn(u64::MAX - 1), 0));
    assert!(!b.can_take(&syn(u64::MAX), 0));
}

#[test]
fn message_that_waits_too_long_for_its_chunks_is_dropped() {
    let mut b = Connection::new(DEFAULT_WINDOW, DEFAULT_RTO);
    let syn = ChannelFrame { flags: FLAG_SYN, ack_num: 0, window: 8, seq: 0, data: vec![] };
    b.step(ConnEvent::Frame(syn), 0);
    let part = |seq: u64, index: u16| {
        ConnEvent::Frame(ChannelFrame {
            flags: FLAG_ACK,
            ack_num: 1,
            window: 8,
            seq,
            data: pack_chunk(&[9; 16], index, 2, &[index as u8]),
        })
    };
    assert!(b.step(part(1, 0), 10).delivered.is_empty());
    assert!(b.step(part(2, 1), 11 + PARTIAL_LIFETIME).delivered.is_empty());
    assert_eq!(b.step(part(3, 0), 12 + PARTIAL_LIFETIME).delivered, vec![vec![0, 1]]);
}
