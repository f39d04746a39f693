//! File transfer.
use std::collections::HashMap;
use telesthete::drop_channel::{
    chunk_frame, parse_chunk_body, sha256_hex, split_frame, typed_frame, DropMessage,
    DropReceiverCore, DropSenderCore, CHUNK_SIZE, MAX_RANGE_CHUNKS,
};

const SADDR: u64 = 1;
const RADDR: u64 = 2;

/// Deterministic pseudo-random bytes.
fn test_bytes(n: usize, seed: u32) -> Vec<u8> {
    let mut state = seed.wrapping_mul(2654435761).wrapping_add(1);
    (0..n)
        .map(|_| {
            state = state.wrapping_mul(1664525).wrapping_add(1013904223);
            (state >> 24) as u8
        })
        .collect()
}

/// Delivers messages both ways until both queues drain. Returns the sender's verdicts.
fn pump(
    sender: &mut DropSenderCore,
    receiver: &mut DropReceiverCore,
    mut to_receiver: Vec<DropMessage>,
) -> Vec<bool> {
    let now = 0;
    let mut verdicts = Vec::new();
    let mut to_sender: Vec<DropMessage> = Vec::new();
    for _ in 0..300 {
        if to_receiver.is_empty() && to_sender.is_empty() {
            break;
        }
        for message in std::mem::take(&mut to_receiver) {
            to_sender.extend(receiver.handle_frame(SADDR, message, now));
        }
        for message in std::mem::take(&mut to_sender) {
            let (messages, verdict) = sender.handle_frame(RADDR, &message);
            to_receiver.extend(messages);
            if let Some(ok) = verdict {
                verdicts.push(ok);
            }
        }
    }
    verdicts
}

fn offer(sender: &DropSenderCore) -> DropMessage {
    DropMessage::Offer(sender.offer_frame())
}

#[test]
fn small_file_transfers_and_verifies() {
    let data = b"hello drop".to_vec();
    let mut sender = DropSenderCore::new("blob.bin".to_string(), data.clone());
    let mut receiver = DropReceiverCore::new(HashMap::new());
    let first = offer(&sender);
    let verdicts = pump(&mut sender, &mut receiver, vec![first]);
    assert_eq!(receiver.verified, Some(true));
    assert_eq!(receiver.take_completion(), Some((data, true)));
    assert!(sender.completed[&RADDR]);
    assert_eq!(verdicts, vec![true]);
}

#[test]
fn multi_window_transfer() {
    let data = test_bytes(CHUNK_SIZE * (MAX_RANGE_CHUNKS as usize * 2 + 3) + 17, 1);
    let mut sender = DropSenderCore::new("blob.bin".to_string(), data.clone());
    let mut receiver = DropReceiverCore::new(HashMap::new());
    let first = offer(&sender);
    pump(&mut sender, &mut receiver, vec![first]);
    assert_eq!(receiver.verified, Some(true));
    let mut got = Vec::new();
    for i in 0..sender.total_chunks {
        got.extend_from_slice(&receiver.have[&i]);
    }
    got.truncate(data.len());
    assert_eq!(sha256_hex(&got), sha256_hex(&data));
}

#[test]
fn resume_requests_only_missing_chunks() {
    let data = test_bytes(CHUNK_SIZE * 10, 2);
    let mut have = HashMap::new();
    for i in [0u32, 1, 2, 5, 9] {
        let lo = i as usize * CHUNK_SIZE;
        have.insert(i, data[lo..lo + CHUNK_SIZE].to_vec());
    }
    let mut sender = DropSenderCore::new("blob.bin".to_string(), data);
    let mut receiver = DropReceiverCore::new(have);
    let first = offer(&sender);
    pump(&mut sender, &mut receiver, vec![first]);
    assert_eq!(receiver.verified, Some(true));
    assert!(receiver.missing_ranges().is_empty());
}

#[test]
fn lost_chunks_rerequested_on_tick() {
    let data = test_bytes(CHUNK_SIZE * 4, 3);
    let mut sender = DropSenderCore::new("blob.bin".to_string(), data);
    let mut receiver = DropReceiverCore::new(HashMap::new());
    // The offer arrives, but the chunks that it asks for are lost.
    let request = receiver.handle_frame(SADDR, offer(&sender), 0);
    for message in request {
        let _lost = sender.handle_frame(RADDR, &message);
    }
    assert_eq!(receiver.verified, None);

    let rerequest = receiver.tick(2000);
    assert!(!rerequest.is_empty(), "stalled receiver must re-request");
    let mut to_receiver = Vec::new();
    for message in rerequest {
        let (messages, _) = sender.handle_frame(RADDR, &message);
        to_receiver.extend(messages);
    }
    pump(&mut sender, &mut receiver, to_receiver);
    assert_eq!(receiver.verified, Some(true));
}

#[test]
fn corrupted_transfer_reports_mismatch() {
    let data = test_bytes(CHUNK_SIZE * 2, 4);
    let mut sender = DropSenderCore::new("blob.bin".to_string(), data.clone());
    let mut receiver = DropReceiverCore::new(HashMap::new());
    let request = receiver.handle_frame(SADDR, offer(&sender), 0);
    sender.data = test_bytes(data.len(), 999);
    let mut to_receiver = Vec::new();
    for message in request {
        let (messages, _) = sender.handle_frame(RADDR, &message);
        to_receiver.extend(messages);
    }
    let verdicts = pump(&mut sender, &mut receiver, to_receiver);
    assert_eq!(receiver.verified, Some(false));
    assert_eq!(verdicts, vec![false]);
    assert!(!sender.completed[&RADDR]);
}

#[test]
fn hostile_request_is_clamped() {
    let data = test_bytes(CHUNK_SIZE * 3, 5);
    let mut sender = DropSenderCore::new("blob.bin".to_string(), data);
    let forged = DropMessage::Request(vec![(0, 10_000_000)]);
    let (messages, _) = sender.handle_frame(RADDR, &forged);
    assert!(messages.len() <= sender.total_chunks as usize);
    let negative = DropMessage::Request(vec![(-5, 2)]);
    let (messages, _) = sender.handle_frame(RADDR, &negative);
    assert_eq!(messages.len(), 2);
}

#[test]
fn empty_file() {
    let mut sender = DropSenderCore::new("empty.bin".to_string(), Vec::new());
    let mut receiver = DropReceiverCore::new(HashMap::new());
    assert_eq!(sender.total_chunks, 1);
    let first = offer(&sender);
    pump(&mut sender, &mut receiver, vec![first]);
    assert_eq!(receiver.verified, Some(true));
    assert_eq!(receiver.take_completion(), Some((Vec::new(), true)));
}

#[test]
fn missing_ranges_are_the_gaps() {
    let data = test_bytes(CHUNK_SIZE * 10, 2);
    let mut have = HashMap::new();
    for i in [0u32, 1, 2, 5, 9] {
        have.insert(i, data[i as usize * CHUNK_SIZE..][..CHUNK_SIZE].to_vec());
    }
    let sender = DropSenderCore::new("blob.bin".to_string(), data);
    let mut receiver = DropReceiverCore::new(have);
    receiver.handle_frame(SADDR, offer(&sender), 0);
    assert_eq!(receiver.missing_ranges(), vec![(3, 5), (6, 9)]);
    assert!(receiver.tick(500).is_empty(), "not yet time to ask again");
}

#[test]
fn chunk_frame_layout() {
    let frame = chunk_frame(0x01020304, b"xy");
    assert_eq!(frame, vec![3, 1, 2, 3, 4, b'x', b'y']);
    let (kind, body) = split_frame(&frame).unwrap();
    assert_eq!(kind, 3);
    assert_eq!(parse_chunk_body(&body), Some((0x01020304, b"xy".to_vec())));
    assert_eq!(parse_chunk_body(&[0, 0, 0]), None);
    assert_eq!(typed_frame(1, b"{}"), b"\x01{}".to_vec());
    assert_eq!(split_frame(&[]), None);
}

#[test]
fn digest_text_is_sha256() {
    assert_eq!(
        sha256_hex(b"abc"),
        "ba7816bf8f01cfea414140de5dae2223b00361a396177a9cb410ff61f20015ad"
    );
}
