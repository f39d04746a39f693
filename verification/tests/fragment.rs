//! The fragmentation envelope.
use telesthete::wire::fragment::{
    fragment, pack_chunk, parse_chunk, Reassembler, FRAG_HEADER_LEN, MAX_CHUNK_PAYLOAD,
    MAX_PARTIAL_MESSAGES, PARTIAL_LIFETIME,
};

const FID: [u8; 16] = [7u8; 16];

#[test]
fn single_chunk_round_trip() {
    let chunks = fragment(b"hello", MAX_CHUNK_PAYLOAD, &FID);
    assert_eq!(chunks.len(), 1);
    let mut r = Reassembler::new();
    assert_eq!(r.feed(&chunks[0]).unwrap(), b"hello");
}

#[test]
fn empty_message_uses_envelope() {
    let chunks = fragment(b"", MAX_CHUNK_PAYLOAD, &FID);
    assert_eq!(chunks.len(), 1);
    assert_eq!(chunks[0].len(), FRAG_HEADER_LEN);
    let mut r = Reassembler::new();
    assert_eq!(r.feed(&chunks[0]).unwrap(), b"");
}

#[test]
fn multi_chunk_round_trip_any_order() {
    let payload: Vec<u8> = (0..(MAX_CHUNK_PAYLOAD * 2 + 5)).map(|i| i as u8).collect();
    let chunks = fragment(&payload, MAX_CHUNK_PAYLOAD, &FID);
    assert_eq!(chunks.len(), 3);
    let mut r = Reassembler::new();
    assert!(r.feed(&chunks[2]).is_none());
    assert!(r.feed(&chunks[0]).is_none());
    assert_eq!(r.feed(&chunks[1]).unwrap(), payload);
}

#[test]
fn rejects_garbage_and_duplicates() {
    let mut r = Reassembler::new();
    assert!(r.feed(b"short").is_none());
    let chunks = fragment(&[1, 2, 3, 4], 2, &FID);
    assert!(r.feed(&chunks[0]).is_none());
    assert!(r.feed(&chunks[0]).is_none());
    assert_eq!(r.feed(&chunks[1]).unwrap(), vec![1, 2, 3, 4]);
}

#[test]
fn chunk_layout() {
    let c = pack_chunk(&FID, 2, 3, b"ab");
    let mut want = vec![1u8];
    want.extend_from_slice(&FID);
    want.extend_from_slice(&[0, 2, 0, 3, b'a', b'b']);
    assert_eq!(c, want);
    let parsed = parse_chunk(&c).unwrap();
    assert_eq!((parsed.fragment_id, parsed.seq, parsed.total), (FID, 2, 3));
    assert_eq!(parsed.data, b"ab");
}

#[test]
fn chunk_with_bad_numbers_is_rejected() {
    assert!(parse_chunk(&pack_chunk(&FID, 0, 0, b"")).is_none());
    assert!(parse_chunk(&pack_chunk(&FID, 3, 3, b"")).is_none());
    let mut wrong_version = pack_chunk(&FID, 0, 1, b"");
    wrong_version[0] = 2;
    assert!(parse_chunk(&wrong_version).is_none());
}

#[test]
fn oldest_partial_message_gives_way() {
    let mut r = Reassembler::new();
    let ids: Vec<[u8; 16]> = (0..=MAX_PARTIAL_MESSAGES)
        .map(|i| {
            let mut id = [0u8; 16];
            id[0] = (i % 256) as u8;
            id[1] = (i / 256) as u8;
            id
        })
        .collect();
    for id in &ids {
        let first = pack_chunk(id, 0, 2, b"a");
        assert!(r.feed(&first).is_none());
    }
    // The first message was evicted, the second is still there.
    assert!(r.feed(&pack_chunk(&ids[0], 1, 2, b"b")).is_none());
    assert_eq!(r.feed(&pack_chunk(&ids[2], 1, 2, b"b")).unwrap(), b"ab");
}

#[test]
fn partial_messages_wait_for_their_lifetime() {
    let chunks = fragment(&[1, 2, 3, 4], 2, &FID);
    let mut r = Reassembler::new();
    r.advance(100);
    assert!(r.feed(&chunks[0]).is_none());
    r.advance(100 + PARTIAL_LIFETIME);
    assert_eq!(r.feed(&chunks[1]).unwrap(), vec![1, 2, 3, 4]);
    assert!(r.feed(&chunks[0]).is_none());
    r.advance(101 + 2 * PARTIAL_LIFETIME);
    assert!(r.feed(&chunks[1]).is_none(), "the first chunk was discarded");
    r.advance(0);
    assert_eq!(r.feed(&chunks[0]).unwrap(), vec![1, 2, 3, 4]);
}

#[test]
fn repeated_chunks_complete_a_message_once() {
    let payload: Vec<u8> = (0..40).collect();
    let chunks = fragment(&payload, 10, &FID);
    let mut r = Reassembler::new();
    for i in [2, 0, 2, 2, 1, 0] {
        assert!(r.feed(&chunks[i]).is_none());
    }
    assert_eq!(r.feed(&chunks[3]), Some(payload));
}

#[test]
fn newest_messages_in_part_are_held() {
    let mut r = Reassembler::new();
    let id = |k: u16| -> [u8; 16] {
        let mut id = [0u8; 16];
        id[..2].copy_from_slice(&k.to_be_bytes());
        id
    };
    let n = MAX_PARTIAL_MESSAGES as u16 + 1;
    for k in 0..n {
        assert!(r.feed(&pack_chunk(&id(k), 0, 2, b"a")).is_none());
    }
    for k in 1..n {
        assert_eq!(r.feed(&pack_chunk(&id(k), 1, 2, b"b")), Some(b"ab".to_vec()), "{k}");
    }
    assert!(r.feed(&pack_chunk(&id(0), 1, 2, b"b")).is_none(), "the oldest was dropped");
}
