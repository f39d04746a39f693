//! Replay protection: the newest sequence number accepted of each peer.
use std::collections::HashMap;
use vstd::prelude::*;

verus! {

/// Whether a packet numbered `seq` from `from` is a replay: the peer has had a packet
/// accepted, and this one is not newer. The first packet of a peer is never one.
pub open spec fn is_stale(marks: Map<u64, u64>, from: u64, seq: u64) -> bool {
    marks.contains_key(from) && seq <= marks[from]
}

/// The marks after a packet came: a packet that is no replay sets the peer's mark.
pub open spec fn marked(marks: Map<u64, u64>, from: u64, seq: u64) -> Map<u64, u64> {
    if is_stale(marks, from, seq) {
        marks
    } else {
        marks.insert(from, seq)
    }
}

/// Whether a packet is a replay; one that is not becomes the newest of its peer.
pub fn replay_stale(marks: &mut HashMap<u64, u64>, from: u64, seq: u64) -> (stale: bool)
    ensures
        stale == is_stale(old(marks)@, from, seq),
        final(marks)@ == marked(old(marks)@, from, seq),
{
    if let Some(mark) = marks.get(&from) {
        if seq <= *mark {
            return true;
        }
    }
    marks.insert(from, seq);
    false
}

/// Forgets a peer that has restarted, whose numbers start anew.
pub fn forget_peer(marks: &mut HashMap<u64, u64>, from: u64)
    ensures
        final(marks)@ == old(marks)@.remove(from),
{
    marks.remove(&from);
}

/// No packet is accepted twice: once accepted, it and all older ones of its peer are replays,
/// and they stay so whatever else comes from any peer.
pub proof fn lemma_no_replay(
    marks: Map<u64, u64>,
    from: u64,
    seq: u64,
    other: u64,
    other_seq: u64,
    again: u64,
)
    requires
        !is_stale(marks, from, seq),
        again <= seq,
    ensures
        is_stale(marked(marks, from, seq), from, again),
        is_stale(marked(marked(marks, from, seq), other, other_seq), from, again),
{
}

/// A packet that is newer than all that were accepted of its peer is accepted, as is the first of a
/// peer, and the numbers of other peers have no bearing on it. It is then the newest.
pub proof fn lemma_newer_accepted(
    marks: Map<u64, u64>,
    from: u64,
    seq: u64,
    other: u64,
    other_seq: u64,
)
    requires
        other != from,
    ensures
        !marks.contains_key(from) || marks[from] < seq ==> !is_stale(marks, from, seq) && marked(
            marks,
            from,
            seq,
        ).contains_key(from) && marked(marks, from, seq)[from] == seq,
        is_stale(marked(marks, other, other_seq), from, seq) == is_stale(marks, from, seq),
        marked(marks, other, other_seq).contains_key(from) == marks.contains_key(from),
        marks.contains_key(from) ==> marked(marks, other, other_seq)[from] == marks[from],
{
}

/// A peer's mark never goes back.
pub proof fn lemma_mark_monotonic(marks: Map<u64, u64>, from: u64, seq: u64, peer: u64)
    requires
        marks.contains_key(peer),
    ensures
        marked(marks, from, seq).contains_key(peer),
        marks[peer] <= marked(marks, from, seq)[peer],
{
}

} // verus!
