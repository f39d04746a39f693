//! The replicated map.
use telesthete::board::{
    snapshot_frames, BoardCore, BoardMessage, BoardNode, BoardReply, SetPayload,
};
use telesthete::wire::fragment::PARTIAL_LIFETIME;

/// A value, as the JSON text that stands for it.
fn json(text: &str) -> String {
    text.to_string()
}

fn merge_all(dst: &mut BoardCore, payloads: &[SetPayload]) {
    for p in payloads {
        dst.merge_entry(p);
    }
}

#[test]
fn set_replicates_and_get() {
    let mut a = BoardCore::new("alice".to_string());
    let mut b = BoardCore::new("bob".to_string());
    let p = a.set("cursor", json("{\"x\": 4, \"y\": 2}"));
    b.merge_entry(&p);
    assert_eq!(b.get("cursor"), Some(&json("{\"x\": 4, \"y\": 2}")));
    assert_eq!(b.items().len(), 1);
}

#[test]
fn lww_merge_higher_lamport_wins() {
    let mut a = BoardCore::new("alice".to_string());
    let mut b = BoardCore::new("bob".to_string());
    let p1 = a.set("k", json("\"from-alice\""));
    b.merge_entry(&p1); // b merged lamport=1, so its next write is lamport=2
    let p2 = b.set("k", json("\"from-bob\""));
    a.merge_entry(&p2);
    assert_eq!(a.get("k"), Some(&json("\"from-bob\"")));
    assert_eq!(b.get("k"), Some(&json("\"from-bob\"")));
}

#[test]
fn equal_lamport_actor_tiebreak() {
    // Concurrent writes with equal clocks: higher actor string wins everywhere.
    let mut a = BoardCore::new("alice".to_string());
    let mut b = BoardCore::new("bob".to_string());
    let pa = a.set("k", json("\"alice-val\"")); // (1, "alice")
    let pb = b.set("k", json("\"bob-val\"")); // (1, "bob") -> "bob" > "alice"
    b.merge_entry(&pa);
    a.merge_entry(&pb);
    assert_eq!(a.get("k"), Some(&json("\"bob-val\"")));
    assert_eq!(b.get("k"), Some(&json("\"bob-val\"")));
}

#[test]
fn delete_tombstone_propagates() {
    let mut a = BoardCore::new("alice".to_string());
    let mut b = BoardCore::new("bob".to_string());
    let p1 = a.set("k", json("1"));
    let p2 = a.delete("k");
    merge_all(&mut b, &[p1, p2]);
    assert_eq!(b.get("k"), None);
    assert!(b.items().is_empty());
    // Tombstone must beat the older live entry even if replayed out of order.
    assert!(b.entry("k").unwrap().deleted);
}

#[test]
fn stale_merge_is_ignored() {
    let mut a = BoardCore::new("alice".to_string());
    a.set("k", json("\"new\"")); // clock 1
    a.set("k", json("\"newer\"")); // clock 2
    let changed = a.merge_entry(&SetPayload {
        key: "k".into(),
        value: json("\"old\""),
        ts: (1, "zzz".into()),
        deleted: false,
    });
    assert!(!changed);
    assert_eq!(a.get("k"), Some(&json("\"newer\"")));
}

#[test]
fn digest_equal_iff_converged() {
    let mut a = BoardCore::new("alice".to_string());
    let mut b = BoardCore::new("bob".to_string());
    let p1 = a.set("x", json("1"));
    let p2 = a.set("y", json("2"));
    assert_ne!(a.digest(), b.digest());
    merge_all(&mut b, &[p1, p2]);
    assert_eq!(a.digest(), b.digest());
    let p3 = b.set("z", json("3"));
    assert_ne!(a.digest(), b.digest());
    a.merge_entry(&p3);
    assert_eq!(a.digest(), b.digest());
}

#[test]
fn lamport_advances_past_merged_clock() {
    let mut a = BoardCore::new("alice".to_string());
    let mut b = BoardCore::new("bob".to_string());
    let mut payloads = Vec::new();
    for _ in 0..5 {
        payloads.push(a.set("k", json("\"spin\""))); // a's clock at 5
    }
    merge_all(&mut b, &payloads);
    let p = b.set("k", json("\"bob-wins\""));
    assert_eq!(b.entry("k").unwrap().lamport, 6, "must be lamport 6, not 1");
    a.merge_entry(&p);
    assert_eq!(a.get("k"), Some(&json("\"bob-wins\"")));
}

fn lists(core: &BoardCore) -> Vec<SetPayload> {
    core.snapshot()
}

#[test]
fn digest_is_the_hash_of_the_listing() {
    let core = BoardCore::new("vector".to_string());
    assert_eq!(
        core.digest(),
        (0, "e3b0c44298fc1c149afbf4c8996fb92427ae41e4649b934ca495991b7852b855".to_string())
    );
}

#[test]
fn merge_order_does_not_matter() {
    let mut a = BoardCore::new("alice".to_string());
    let mut b = BoardCore::new("bob".to_string());
    let p1 = a.set("k", json("1"));
    let p2 = b.set("k", json("2"));
    let p3 = a.set("j", json("3"));
    let mut x = BoardCore::new("x".to_string());
    let mut y = BoardCore::new("x".to_string());
    merge_all(&mut x, &[p1.clone(), p2.clone(), p3.clone()]);
    merge_all(&mut y, &[p3, p2, p1]);
    assert_eq!(lists(&x), lists(&y));
    assert_eq!(x.digest(), y.digest());
    // A second time changes nothing.
    let before = x.digest();
    for p in lists(&y) {
        assert!(!x.merge_entry(&p));
    }
    assert_eq!(x.digest(), before);
}

#[test]
fn digest_mismatch_triggers_sync_req_then_snapshot_converges() {
    let mut a = BoardNode::new("alice".to_string());
    let mut b = BoardNode::new("bob".to_string());
    a.set("only-on-a", json("\"v\""));
    let (count, hash) = a.replica().digest();
    let (changes, reply) = b.handle(BoardMessage::Digest(Some(count), Some(hash)));
    assert!(changes.is_empty());
    assert!(matches!(reply, BoardReply::SyncReq));
    let (_, reply) = a.handle(BoardMessage::SyncReq);
    let entries = match reply {
        BoardReply::Snapshot(entries) => entries,
        _ => panic!("expected a snapshot"),
    };
    let (changes, _) = b.handle(BoardMessage::Snapshot(entries));
    assert_eq!(changes.len(), 1);
    assert_eq!(b.replica().get("only-on-a"), Some(&json("\"v\"")));
    assert_eq!(a.replica().digest(), b.replica().digest());
}

#[test]
fn replayed_set_is_dropped_by_watermark() {
    let mut b = BoardNode::new("bob".to_string());
    let message = b"{}".to_vec();
    assert_eq!(b.accept(7, 42, message.clone(), 0), Some(message.clone()));
    assert_eq!(b.accept(7, 42, message.clone(), 0), None);
    assert_eq!(b.accept(7, 41, message.clone(), 0), None);
    b.rebase(7);
    assert_eq!(b.accept(7, 1, message.clone(), 0), Some(message));
}

#[test]
fn destinations_are_kept_once() {
    let mut n = BoardNode::new("n".to_string());
    n.add_destination(1);
    n.add_destination(2);
    n.add_destination(1);
    assert_eq!(n.destinations(), &vec![1, 2]);
    n.remove_destination(1);
    assert_eq!(n.destinations(), &vec![2]);
}

#[test]
fn late_frames_of_a_snapshot_complete_nothing() {
    let text = vec![b'x'; 2500];
    let frames = snapshot_frames(&text);
    assert_eq!(frames.len(), 3);
    for (last_at, whole) in [(PARTIAL_LIFETIME + 5, true), (PARTIAL_LIFETIME + 6, false)] {
        let mut b = BoardNode::new("bob".to_string());
        assert_eq!(b.accept(7, 1, frames[0].clone(), 5), None);
        assert_eq!(b.accept(7, 2, frames[1].clone(), 6), None);
        let out = b.accept(7, 3, frames[2].clone(), last_at);
        assert_eq!(out, if whole { Some(text.clone()) } else { None });
    }
}

#[test]
fn local_writes_go_through_the_node() {
    let mut n = BoardNode::new("n".to_string());
    let p = n.set("k", json("1"));
    assert_eq!(p.ts, (1, "n".to_string()));
    assert_eq!(n.replica().get("k"), Some(&json("1")));
    let d = n.delete("k");
    assert!(d.deleted);
    assert_eq!(d.ts, (2, "n".to_string()));
    assert_eq!(n.replica().get("k"), None);
}
