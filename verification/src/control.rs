//! The control channel: introductions, restarts, keepalives, and the peers of a band.
use crate::crypto::{self, select_cipher, BASELINE_CIPHER};
use crate::replay::{self, replay_stale};
use crate::text::{self, copy_texts};
use std::collections::HashMap;
use vstd::prelude::*;

verus! {

/// Introduces a peer.
pub const TYPE_HELLO: u8 = 0x01;

/// Answers an introduction.
pub const TYPE_HELLO_ACK: u8 = 0x02;

/// Says that the peer is there.
pub const TYPE_KEEPALIVE: u8 = 0x03;

/// Says where the focus is.
pub const TYPE_FOCUS_CHANGE: u8 = 0x04;

/// Carries settings.
pub const TYPE_METACONTROL: u8 = 0x05;

/// Takes leave.
pub const TYPE_GOODBYE: u8 = 0x06;

/// Asks for a fresh keyframe.
pub const TYPE_KEYFRAME_REQ: u8 = 0x07;

/// Tells the sender of a stream how fast to send.
pub const TYPE_RATE_HINT: u8 = 0x08;

/// The secret of bands that do not leave the machine.
pub const LOCAL_PSK: &'static str = "telesthete-local";

/// An introduction.
#[derive(Debug, Clone)]
pub struct Hello {
    pub hostname: String,
    pub capabilities: Vec<String>,
    /// The ciphers that the peer speaks, the one it likes best first.
    pub ciphers: Vec<String>,
    /// Which of its lives the peer is in; each restart brings a greater one.
    pub session: u64,
}

/// The answer to an introduction.
#[derive(Debug, Clone)]
pub struct HelloAck {
    pub hostname: String,
    pub capabilities: Vec<String>,
    pub ciphers: Vec<String>,
    /// The cipher that was agreed on.
    pub cipher: String,
    pub session: u64,
}

/// Says that the peer is there.
#[derive(Debug, Clone)]
pub struct Keepalive {}

/// Takes leave.
#[derive(Debug, Clone)]
pub struct Goodbye {}

/// A control message that came.
#[derive(Debug)]
pub enum ControlMessage {
    Hello(Hello),
    HelloAck(HelloAck),
    Keepalive(Keepalive),
    Goodbye(Goodbye),
    /// Any other type, with its content as text.
    Other { type_: u8, payload: String },
}

/// What the application hears of control messages.
#[derive(Debug)]
pub enum ControlEvent {
    Hello { from: u64, hostname: String, capabilities: Vec<String>, ciphers: Vec<String> },
    HelloAck {
        from: u64,
        hostname: String,
        capabilities: Vec<String>,
        ciphers: Vec<String>,
        cipher: String,
    },
    Keepalive { from: u64 },
    Goodbye { from: u64 },
    Other { from: u64, type_: u8, payload: String },
}

/// What to do about a control message.
#[derive(Debug)]
pub struct ControlStep {
    /// The peer has started the life with this number: what was remembered of its numbers is to
    /// be forgotten.
    pub restarted: Option<u64>,
    /// The answer to send.
    pub ack: Option<HelloAck>,
    /// What to tell the application.
    pub event: Option<ControlEvent>,
}

/// What is known of a peer.
#[derive(Debug)]
pub struct PeerState {
    pub addr: u64,
    pub hostname: String,
    pub capabilities: Vec<String>,
    /// The cipher that was agreed on with it.
    pub cipher: String,
}

/// What is known of a peer.
#[verifier::ext_equal]
pub struct PeerModel {
    pub addr: u64,
    pub hostname: Seq<char>,
    pub capabilities: Seq<Seq<char>>,
    pub cipher: Seq<char>,
}

impl View for PeerState {
    type V = PeerModel;

    open spec fn view(&self) -> PeerModel {
        PeerModel {
            addr: self.addr,
            hostname: self.hostname@,
            capabilities: text::texts(self.capabilities@),
            cipher: self.cipher@,
        }
    }
}

/// What a peer says of itself.
#[derive(Debug)]
pub struct ControlConfig {
    pub session: u64,
    pub hostname: String,
    pub capabilities: Vec<String>,
    pub ciphers: Vec<String>,
}

/// What the control channel remembers: the newest number and the life of each peer, and who
/// the peers are, in the order in which they came.
#[verifier::ext_equal]
pub struct ControlModel {
    pub marks: Map<u64, u64>,
    pub sessions: Map<u64, u64>,
    pub peers: Seq<PeerModel>,
}

/// The most peers of which anything is remembered.
pub const MAX_PEERS: usize = 4096;

/// Whether there is no room to remember the number of a message from `from`.
pub open spec fn no_mark_left(m: ControlModel, from: u64) -> bool {
    !m.marks.contains_key(from) && m.marks.len() >= MAX_PEERS
}

/// Whether there is no room to remember `from` as a peer.
pub open spec fn no_room_left(m: ControlModel, from: u64) -> bool {
    ||| no_mark_left(m, from)
    ||| !m.sessions.contains_key(from) && m.sessions.len() >= MAX_PEERS
    ||| !addresses(m.peers).contains(from) && m.peers.len() >= MAX_PEERS
}

/// Whether no more is remembered than may be.
pub open spec fn is_bounded(m: ControlModel) -> bool {
    &&& m.marks.dom().finite() && m.marks.len() <= MAX_PEERS
    &&& m.sessions.dom().finite() && m.sessions.len() <= MAX_PEERS
    &&& m.peers.len() <= MAX_PEERS
}

/// Whether an introduction is of a life that the peer has left behind.
pub open spec fn is_past(m: ControlModel, from: u64, session: u64) -> bool {
    m.sessions.contains_key(from) && session < m.sessions[from]
}

/// Whether an introduction starts a new life of the peer.
pub open spec fn is_restart(m: ControlModel, from: u64, session: u64) -> bool {
    !m.sessions.contains_key(from) || session > m.sessions[from]
}

/// The state after an introduction has told which life the peer is in: a new one starts its
/// numbers anew.
pub open spec fn told(m: ControlModel, from: u64, session: u64) -> ControlModel {
    if is_restart(m, from, session) {
        ControlModel {
            sessions: m.sessions.insert(from, session),
            marks: m.marks.remove(from),
            ..m
        }
    } else {
        m
    }
}

/// Whether an introduction is ignored: it is of a past life, or there is no room for the peer.
pub open spec fn is_ignored(m: ControlModel, from: u64, session: u64) -> bool {
    is_past(m, from, session) || no_room_left(m, from)
}

/// Whether an introduction is heard: it is of the peer's present life or starts a new one,
/// there is room for the peer, and it is no replay.
pub open spec fn is_heard(m: ControlModel, from: u64, seq: u64, session: u64) -> bool {
    !is_ignored(m, from, session) && !replay::is_stale(told(m, from, session).marks, from, seq)
}

/// The peers with one added, or changed if it was among them.
pub open spec fn enlisted(peers: Seq<PeerModel>, p: PeerModel) -> Seq<PeerModel> {
    if exists|i: int| 0 <= i < peers.len() && (#[trigger] peers[i]).addr == p.addr {
        Seq::new(
            peers.len(),
            |i: int|
                if peers[i].addr == p.addr {
                    p
                } else {
                    peers[i]
                },
        )
    } else {
        peers.push(p)
    }
}

/// The state after an introduction of `p`.
pub open spec fn introduced(
    m: ControlModel,
    seq: u64,
    session: u64,
    p: PeerModel,
) -> ControlModel {
    if is_ignored(m, p.addr, session) {
        m
    } else {
        let t = told(m, p.addr, session);
        if replay::is_stale(t.marks, p.addr, seq) {
            t
        } else {
            ControlModel {
                marks: t.marks.insert(p.addr, seq),
                peers: enlisted(t.peers, p),
                ..t
            }
        }
    }
}

/// The state after any other message.
pub open spec fn noted(m: ControlModel, from: u64, seq: u64) -> ControlModel {
    if no_mark_left(m, from) {
        m
    } else {
        ControlModel { marks: replay::marked(m.marks, from, seq), ..m }
    }
}

/// Whether a type without a shape of its own is one that the application is told of. All
/// others are ignored.
pub open spec fn is_known(type_: u8) -> bool {
    type_ == TYPE_FOCUS_CHANGE || type_ == TYPE_METACONTROL || type_ == TYPE_KEYFRAME_REQ || type_
        == TYPE_RATE_HINT
}

/// The cipher that an answer commits to: the one it names where it is one of ours, and else
/// the one that all peers speak.
pub open spec fn committed(ours: Seq<String>, cipher: Seq<char>) -> Seq<char> {
    if crypto::lists(ours, cipher) {
        cipher
    } else {
        BASELINE_CIPHER@
    }
}

/// The peer that an introduction makes known.
pub open spec fn hello_peer(ours: Seq<String>, from: u64, h: Hello) -> PeerModel {
    PeerModel {
        addr: from,
        hostname: h.hostname@,
        capabilities: text::texts(h.capabilities@),
        cipher: crypto::agreed(h.ciphers@, ours, 0),
    }
}

/// The peer that an answer makes known.
pub open spec fn ack_peer(ours: Seq<String>, from: u64, h: HelloAck) -> PeerModel {
    PeerModel {
        addr: from,
        hostname: h.hostname@,
        capabilities: text::texts(h.capabilities@),
        cipher: committed(ours, h.cipher@),
    }
}

/// The state after a control message.
pub open spec fn handled(
    m: ControlModel,
    ours: Seq<String>,
    from: u64,
    seq: u64,
    msg: ControlMessage,
) -> ControlModel {
    match msg {
        ControlMessage::Hello(h) => introduced(m, seq, h.session, hello_peer(ours, from, h)),
        ControlMessage::HelloAck(h) => introduced(m, seq, h.session, ack_peer(ours, from, h)),
        _ => noted(m, from, seq),
    }
}

/// Whether a step is the right one for an introduction or an answer to one.
pub open spec fn restart_told(
    m: ControlModel,
    from: u64,
    session: u64,
    restarted: Option<u64>,
) -> bool {
    restarted == if is_restart(m, from, session) {
        Some(session)
    } else {
        None
    }
}

/// No life of a peer is left for an earlier one, whatever comes.
pub proof fn lemma_sessions_go_forward(
    m: ControlModel,
    ours: Seq<String>,
    from: u64,
    seq: u64,
    msg: ControlMessage,
    peer: u64,
)
    requires
        m.sessions.contains_key(peer),
    ensures
        handled(m, ours, from, seq, msg).sessions.contains_key(peer),
        m.sessions[peer] <= handled(m, ours, from, seq, msg).sessions[peer],
{
}

/// An introduction from a life that a peer has left behind changes nothing.
pub proof fn lemma_past_life_ignored(
    m: ControlModel,
    ours: Seq<String>,
    from: u64,
    seq: u64,
    h: Hello,
)
    requires
        m.sessions.contains_key(from),
        h.session < m.sessions[from],
    ensures
        handled(m, ours, from, seq, ControlMessage::Hello(h)) == m,
{
}

/// A peer that has restarted is heard, whatever number it starts at, if there is room for it.
pub proof fn lemma_restart_heard(m: ControlModel, from: u64, seq: u64, session: u64)
    requires
        is_restart(m, from, session),
        !no_room_left(m, from),
    ensures
        is_heard(m, from, seq, session),
{
}

/// Whatever comes, no more is remembered than may be.
pub proof fn lemma_stays_bounded(
    m: ControlModel,
    ours: Seq<String>,
    from: u64,
    seq: u64,
    msg: ControlMessage,
)
    requires
        is_bounded(m),
    ensures
        is_bounded(handled(m, ours, from, seq, msg)),
{
    match msg {
        ControlMessage::Hello(h) => lemma_introduced_bounded(
            m,
            seq,
            h.session,
            hello_peer(ours, from, h),
        ),
        ControlMessage::HelloAck(h) => lemma_introduced_bounded(
            m,
            seq,
            h.session,
            ack_peer(ours, from, h),
        ),
        _ => {},
    }
}

proof fn lemma_introduced_bounded(m: ControlModel, seq: u64, session: u64, p: PeerModel)
    requires
        is_bounded(m),
    ensures
        is_bounded(introduced(m, seq, session, p)),
{
    if !is_ignored(m, p.addr, session) {
        let t = told(m, p.addr, session);
        assert(t.marks.insert(p.addr, seq).dom() =~= m.marks.dom().insert(p.addr));
        if addresses(m.peers).contains(p.addr) {
            let i = addresses(m.peers).index_of(p.addr);
            assert(m.peers[i].addr == p.addr);
        }
    }
}

/// No introduction is heard twice, whatever comes from other peers in between.
pub proof fn lemma_no_replay(
    m: ControlModel,
    ours: Seq<String>,
    from: u64,
    seq: u64,
    h: Hello,
    other: u64,
    other_seq: u64,
    msg: ControlMessage,
)
    requires
        is_heard(m, from, seq, h.session),
        other != from,
    ensures
        ({
            let after = handled(m, ours, from, seq, ControlMessage::Hello(h));
            let later = handled(after, ours, other, other_seq, msg);
            &&& !is_heard(after, from, seq, h.session)
            &&& !is_heard(later, from, seq, h.session)
        }),
{
}

/// Whether a peer that was last heard from at `seen` is taken to be alive.
pub open spec fn is_alive(seen: Option<u64>, now: u64, dead_after: u64) -> bool {
    match seen {
        Some(t) => t >= now && dead_after > 0 || t < now && now - t < dead_after,
        None => false,
    }
}

/// When a peer was last heard from.
pub open spec fn last_heard(seen: Map<u64, u64>, addr: u64) -> Option<u64> {
    if seen.contains_key(addr) {
        Some(seen[addr])
    } else {
        None
    }
}

/// The peers that are alive.
pub open spec fn alive_peers(
    peers: Seq<PeerModel>,
    seen: Map<u64, u64>,
    now: u64,
    dead_after: u64,
) -> Seq<PeerModel>
    decreases peers.len(),
{
    if peers.len() == 0 {
        peers
    } else {
        let before = alive_peers(peers.drop_last(), seen, now, dead_after);
        if is_alive(last_heard(seen, peers.last().addr), now, dead_after) {
            before.push(peers.last())
        } else {
            before
        }
    }
}

/// The addresses of the peers that are not alive.
pub open spec fn dead_peers(
    peers: Seq<PeerModel>,
    seen: Map<u64, u64>,
    now: u64,
    dead_after: u64,
) -> Seq<u64>
    decreases peers.len(),
{
    if peers.len() == 0 {
        Seq::empty()
    } else {
        let before = dead_peers(peers.drop_last(), seen, now, dead_after);
        if is_alive(last_heard(seen, peers.last().addr), now, dead_after) {
            before
        } else {
            before.push(peers.last().addr)
        }
    }
}

/// Every peer that was heard from recently stays, and every other goes.
pub proof fn lemma_sweep_exact(
    peers: Seq<PeerModel>,
    seen: Map<u64, u64>,
    now: u64,
    dead_after: u64,
    p: PeerModel,
)
    ensures
        alive_peers(peers, seen, now, dead_after).contains(p) <==> peers.contains(p) && is_alive(
            last_heard(seen, p.addr),
            now,
            dead_after,
        ),
    decreases peers.len(),
{
    if peers.len() > 0 {
        let front = peers.drop_last();
        let before = alive_peers(front, seen, now, dead_after);
        let after = alive_peers(peers, seen, now, dead_after);
        lemma_sweep_exact(front, seen, now, dead_after, p);
        if peers.contains(p) {
            let i = peers.index_of(p);
            if i < front.len() {
                assert(front[i] == p);
            }
        }
        if front.contains(p) {
            assert(peers[front.index_of(p)] == p);
        }
        assert(peers[peers.len() - 1] == peers.last());
        if is_alive(last_heard(seen, peers.last().addr), now, dead_after) {
            assert(after[after.len() - 1] == peers.last());
            if before.contains(p) {
                assert(after[before.index_of(p)] == p);
            }
            if after.contains(p) {
                let i = after.index_of(p);
                if i < before.len() {
                    assert(before[i] == p);
                }
            }
        }
    }
}

/// Which introductions are heard: one of a life that the peer has not left behind, for which there
/// is room, and which starts a new life or bears a number above all that were heard in this one.
/// One that is heard tells the peer's life and its newest number, and makes it a peer as it
/// describes itself.
#[verifier::spinoff_prover]
#[verifier::rlimit(40)]
pub proof fn lemma_introduction_heard(m: ControlModel, seq: u64, session: u64, p: PeerModel)
    ensures
        ({
            let from = p.addr;
            let after = introduced(m, seq, session, p);
            let known = m.sessions.contains_key(from);
            let room = (m.marks.contains_key(from) || m.marks.len() < MAX_PEERS) && (known
                || m.sessions.len() < MAX_PEERS) && (m.peers.len() < MAX_PEERS || exists|i: int|
                0 <= i < m.peers.len() && (#[trigger] m.peers[i]).addr == from);
            let starts = !known || session > m.sessions[from];
            let heard = room && (known ==> session >= m.sessions[from]) && (starts
                || !m.marks.contains_key(from) || seq > m.marks[from]);
            &&& is_heard(m, from, seq, session) <==> heard
            &&& heard ==> {
                &&& after.sessions.contains_key(from)
                &&& after.sessions[from] == session
                &&& after.marks.contains_key(from)
                &&& after.marks[from] == seq
                &&& after.peers.contains(p)
            }
            &&& !heard ==> after.peers == m.peers
            &&& !room || known && session < m.sessions[from] ==> after == m
        }),
{
    let from = p.addr;
    let after = introduced(m, seq, session, p);
    assert(addresses(m.peers).contains(from) <==> exists|i: int|
        0 <= i < m.peers.len() && (#[trigger] m.peers[i]).addr == from) by {
        if addresses(m.peers).contains(from) {
            let i = addresses(m.peers).index_of(from);
            assert(m.peers[i].addr == from);
        }
        if exists|i: int| 0 <= i < m.peers.len() && (#[trigger] m.peers[i]).addr == from {
            let i = choose|i: int| 0 <= i < m.peers.len() && (#[trigger] m.peers[i]).addr == from;
            assert(addresses(m.peers)[i] == from);
        }
    }
    if is_heard(m, from, seq, session) {
        if exists|i: int| 0 <= i < m.peers.len() && (#[trigger] m.peers[i]).addr == p.addr {
            let i = choose|i: int| 0 <= i < m.peers.len() && (#[trigger] m.peers[i]).addr == p.addr;
            assert(after.peers[i] == p);
        } else {
            assert(after.peers[after.peers.len() - 1] == p);
        }
    }
}

/// What comes from one peer has no bearing on another: its number, its life and what is known of
/// it stay as they were, and nobody else comes to be a peer.
pub proof fn lemma_peers_apart(
    m: ControlModel,
    ours: Seq<String>,
    from: u64,
    seq: u64,
    msg: ControlMessage,
    other: PeerModel,
)
    requires
        other.addr != from,
    ensures
        ({
            let after = handled(m, ours, from, seq, msg);
            let peer = other.addr;
            &&& after.marks.contains_key(peer) == m.marks.contains_key(peer)
            &&& m.marks.contains_key(peer) ==> after.marks[peer] == m.marks[peer]
            &&& after.sessions.contains_key(peer) == m.sessions.contains_key(peer)
            &&& m.sessions.contains_key(peer) ==> after.sessions[peer] == m.sessions[peer]
            &&& after.peers.contains(other) <==> m.peers.contains(other)
        }),
{
    let after = handled(m, ours, from, seq, msg);
    let p = match msg {
        ControlMessage::Hello(h) => hello_peer(ours, from, h),
        ControlMessage::HelloAck(h) => ack_peer(ours, from, h),
        _ => other,
    };
    if after.peers != m.peers {
        assert(after.peers == enlisted(m.peers, p));
        if m.peers.contains(other) {
            let i = m.peers.index_of(other);
            assert(after.peers[i] == other);
        }
        if after.peers.contains(other) {
            let i = after.peers.index_of(other);
            assert(i < m.peers.len());
            assert(m.peers[i] == other);
        }
    }
}

/// An introduction that is heard leaves exactly one entry of the peer, however it described itself
/// before.
pub proof fn lemma_introduced_once(peers: Seq<PeerModel>, p: PeerModel, q: PeerModel)
    requires
        q.addr == p.addr,
    ensures
        enlisted(peers, p).contains(q) <==> q == p,
        addresses(peers).no_duplicates() ==> addresses(enlisted(peers, p)).no_duplicates(),
        addresses(peers).contains(p.addr) ==> enlisted(peers, p).len() == peers.len(),
        !addresses(peers).contains(p.addr) ==> enlisted(peers, p) == peers.push(p),
{
    let after = enlisted(peers, p);
    if exists|i: int| 0 <= i < peers.len() && (#[trigger] peers[i]).addr == p.addr {
        let i = choose|i: int| 0 <= i < peers.len() && (#[trigger] peers[i]).addr == p.addr;
        assert(after[i] == p);
        assert(addresses(peers)[i] == p.addr);
        assert(addresses(after) =~= addresses(peers));
    } else {
        assert(after[after.len() - 1] == p);
        if after.contains(q) {
            let i = after.index_of(q);
            assert(i < peers.len() ==> peers[i].addr == q.addr);
        }
        if addresses(peers).contains(p.addr) {
            let i = addresses(peers).index_of(p.addr);
            assert(peers[i].addr == p.addr);
        }
        assert(addresses(after) =~= addresses(peers).push(p.addr));
    }
}

/// A message that introduces nobody is told to the application if it bears a number above all
/// that were heard of its sender, and then becomes the newest; else nothing happens. It changes
/// neither who the peers are nor in which life they are.
pub proof fn lemma_message_told(m: ControlModel, from: u64, seq: u64)
    ensures
        ({
            let after = noted(m, from, seq);
            let newer = if m.marks.contains_key(from) {
                seq > m.marks[from]
            } else {
                m.marks.len() < MAX_PEERS
            };
            &&& newer <==> !(no_mark_left(m, from) || replay::is_stale(m.marks, from, seq))
            &&& newer ==> after.marks == m.marks.insert(from, seq)
            &&& !newer ==> after.marks == m.marks
            &&& after.sessions == m.sessions
            &&& after.peers == m.peers
        }),
{
}

/// Who is taken to be dead: exactly the peers that were never heard from, or not for as long as
/// was given; each is told once for each time that it stands among the peers, and every peer is
/// either among the dead or stays.
pub proof fn lemma_dead_exact(
    peers: Seq<PeerModel>,
    seen: Map<u64, u64>,
    now: u64,
    dead_after: u64,
    p: PeerModel,
)
    requires
        peers.contains(p),
    ensures
        ({
            let gone = !seen.contains_key(p.addr) || now >= seen[p.addr] + dead_after || dead_after
                == 0;
            &&& dead_peers(peers, seen, now, dead_after).contains(p.addr) <==> gone
            &&& alive_peers(peers, seen, now, dead_after).contains(p) <==> !gone
            &&& dead_peers(peers, seen, now, dead_after).len() + alive_peers(
                peers,
                seen,
                now,
                dead_after,
            ).len() == peers.len()
        }),
{
    lemma_sweep_exact(peers, seen, now, dead_after, p);
    lemma_dead_addresses(peers, seen, now, dead_after, p.addr);
    let i = peers.index_of(p);
    assert(peers[i].addr == p.addr);
}

#[verifier::spinoff_prover]
#[verifier::rlimit(40)]
proof fn lemma_dead_addresses(
    peers: Seq<PeerModel>,
    seen: Map<u64, u64>,
    now: u64,
    dead_after: u64,
    addr: u64,
)
    ensures
        dead_peers(peers, seen, now, dead_after).contains(addr) <==> !is_alive(
            last_heard(seen, addr),
            now,
            dead_after,
        ) && exists|i: int| 0 <= i < peers.len() && (#[trigger] peers[i]).addr == addr,
        dead_peers(peers, seen, now, dead_after).len() + alive_peers(
            peers,
            seen,
            now,
            dead_after,
        ).len() == peers.len(),
    decreases peers.len(),
{
    if peers.len() > 0 {
        let front = peers.drop_last();
        let before = dead_peers(front, seen, now, dead_after);
        let after = dead_peers(peers, seen, now, dead_after);
        lemma_dead_addresses(front, seen, now, dead_after, addr);
        let last = peers.len() - 1;
        assert((exists|i: int| 0 <= i < peers.len() && (#[trigger] peers[i]).addr == addr) <==> ((
        exists|i: int| 0 <= i < front.len() && (#[trigger] front[i]).addr == addr)
            || peers[last].addr == addr)) by {
            if exists|i: int| 0 <= i < peers.len() && (#[trigger] peers[i]).addr == addr {
                let i = choose|i: int| 0 <= i < peers.len() && (#[trigger] peers[i]).addr == addr;
                if i < last {
                    assert(front[i].addr == addr);
                }
            }
            if exists|i: int| 0 <= i < front.len() && (#[trigger] front[i]).addr == addr {
                let i = choose|i: int| 0 <= i < front.len() && (#[trigger] front[i]).addr == addr;
                assert(peers[i].addr == addr);
            }
        }
        if !is_alive(last_heard(seen, peers.last().addr), now, dead_after) {
            assert(after[after.len() - 1] == peers.last().addr);
            if before.contains(addr) {
                assert(after[before.index_of(addr)] == addr);
            }
            if after.contains(addr) {
                let i = after.index_of(addr);
                if i < before.len() {
                    assert(before[i] == addr);
                }
            }
        }
    }
}

/// An answer commits to the cipher that it names if that is one of ours, and to the one that all
/// peers speak if it is not: so a peer is never spoken to in a cipher that we do not know.
pub proof fn lemma_committed_is_ours(ours: Seq<String>, cipher: Seq<char>)
    ensures
        ({
            let named = exists|i: int| 0 <= i < ours.len() && (#[trigger] ours[i])@ == cipher;
            &&& named ==> committed(ours, cipher) == cipher
            &&& !named ==> committed(ours, cipher) == BASELINE_CIPHER@
        }),
{
}

/// Of the messages without a shape of their own, the application is told of those that change the
/// focus, control the control, ask for a key frame or hint at a rate, and of no others.
pub proof fn lemma_known_types(type_: u8)
    ensures
        is_known(type_) <==> type_ == 4 || type_ == 5 || type_ == 7 || type_ == 8,
{
}

/// The addresses of peers.
pub open spec fn addresses(peers: Seq<PeerModel>) -> Seq<u64> {
    peers.map_values(|p: PeerModel| p.addr)
}

/// The peers in `v`.
pub open spec fn peer_models(v: Seq<PeerState>) -> Seq<PeerModel> {
    v.map_values(|p: PeerState| p@)
}

/// The control channel of a peer.
pub struct ControlCore {
    config: ControlConfig,
    watermark: HashMap<u64, u64>,
    sessions: HashMap<u64, u64>,
    peers: Vec<PeerState>,
}

impl View for ControlCore {
    type V = ControlModel;

    closed spec fn view(&self) -> ControlModel {
        ControlModel {
            marks: self.watermark@,
            sessions: self.sessions@,
            peers: peer_models(self.peers@),
        }
    }
}

impl ControlCore {
    /// What the peer says of itself.
    pub closed spec fn config(&self) -> ControlConfig {
        self.config
    }

    /// What holds of every control channel: each peer stands once, and no more is remembered
    /// than may be.
    pub open spec fn wf(&self) -> bool {
        addresses(self@.peers).no_duplicates() && is_bounded(self@)
    }

    /// A control channel that has heard nothing.
    pub fn new(config: ControlConfig) -> (r: Self)
        ensures
            r.wf(),
            r.config() == config,
            r@ == (ControlModel {
                marks: Map::empty(),
                sessions: Map::empty(),
                peers: Seq::empty(),
            }),
    {
        let r = ControlCore {
            config,
            watermark: HashMap::new(),
            sessions: HashMap::new(),
            peers: Vec::new(),
        };
        assert(r@.peers =~= Seq::empty());
        r
    }

    /// The introduction of this peer.
    pub fn hello(&self) -> (h: Hello)
        ensures
            h.hostname@ == self.config().hostname@,
            text::texts(h.capabilities@) == text::texts(self.config().capabilities@),
            text::texts(h.ciphers@) == text::texts(self.config().ciphers@),
            h.session == self.config().session,
    {
        Hello {
            hostname: self.config.hostname.clone(),
            capabilities: copy_texts(&self.config.capabilities),
            ciphers: copy_texts(&self.config.ciphers),
            session: self.config.session,
        }
    }

    /// The answer of this peer to an introduction, committing to a cipher.
    pub fn hello_ack(&self, cipher: String) -> (h: HelloAck)
        ensures
            h.hostname@ == self.config().hostname@,
            text::texts(h.capabilities@) == text::texts(self.config().capabilities@),
            text::texts(h.ciphers@) == text::texts(self.config().ciphers@),
            h.cipher@ == cipher@,
            h.session == self.config().session,
    {
        HelloAck {
            hostname: self.config.hostname.clone(),
            capabilities: copy_texts(&self.config.capabilities),
            ciphers: copy_texts(&self.config.ciphers),
            cipher,
            session: self.config.session,
        }
    }

    /// The peers of the band.
    pub fn peers(&self) -> (r: &Vec<PeerState>)
        ensures
            peer_models(r@) == self@.peers,
    {
        &self.peers
    }

    fn lacks_mark(&self, from: u64) -> (r: bool)
        ensures
            r == no_mark_left(self@, from),
    {
        !self.watermark.contains_key(&from) && self.watermark.len() >= MAX_PEERS
    }

    fn lacks_room(&self, from: u64) -> (r: bool)
        ensures
            r == no_room_left(self@, from),
    {
        if self.lacks_mark(from) {
            return true;
        }
        if !self.sessions.contains_key(&from) && self.sessions.len() >= MAX_PEERS {
            return true;
        }
        self.peers.len() >= MAX_PEERS && !self.has_peer(from)
    }

    fn has_peer(&self, addr: u64) -> (r: bool)
        ensures
            r == addresses(self@.peers).contains(addr),
    {
        let mut i: usize = 0;
        while i < self.peers.len()
            invariant
                i <= self.peers@.len(),
                forall|k: int| 0 <= k < i ==> #[trigger] addresses(self@.peers)[k] != addr,
            decreases self.peers@.len() - i,
        {
            assert(addresses(self@.peers)[i as int] == self.peers@[i as int].addr);
            if self.peers[i].addr == addr {
                return true;
            }
            i = i + 1;
        }
        false
    }

    /// Adds a peer, or changes it if it is among the peers.
    fn enlist(&mut self, p: PeerState)
        requires
            addresses(old(self)@.peers).no_duplicates(),
        ensures
            addresses(final(self)@.peers).no_duplicates(),
            final(self).config() == old(self).config(),
            final(self)@ == (ControlModel { peers: enlisted(old(self)@.peers, p@), ..old(self)@ }),
    {
        let ghost before = self@.peers;
        let ghost model = p@;
        let mut i: usize = 0;
        while i < self.peers.len()
            invariant
                i <= self.peers@.len(),
                *self == *old(self),
                addresses(old(self)@.peers).no_duplicates(),
                before == old(self)@.peers,
                model == p@,
                forall|k: int| 0 <= k < i ==> (#[trigger] before[k]).addr != p.addr,
            decreases self.peers@.len() - i,
        {
            assert(before[i as int] == self.peers@[i as int]@);
            if self.peers[i].addr == p.addr {
                let ghost list = self.peers@;
                self.peers.set(i, p);
                proof {
                    assert(addresses(before)[i as int] == model.addr);
                    assert forall|k: int| 0 <= k < before.len() && k != i implies (
                    #[trigger] before[k]).addr != model.addr by {
                        assert(addresses(before)[k] == before[k].addr);
                    }
                    assert(peer_models(self.peers@) =~= enlisted(before, model));
                    assert(addresses(self@.peers) =~= addresses(before));
                }
                return ;
            }
            i = i + 1;
        }
        self.peers.push(p);
        proof {
            assert(peer_models(self.peers@) =~= before.push(model));
            assert(enlisted(before, model) == before.push(model));
            let now = addresses(self@.peers);
            assert forall|j: int, k: int| 0 <= j < now.len() && 0 <= k < now.len() && j != k implies now[j]
                != now[k] by {
                if j < before.len() {
                    assert(addresses(before)[j] == before[j].addr && now[j] == before[j].addr);
                }
                if k < before.len() {
                    assert(addresses(before)[k] == before[k].addr && now[k] == before[k].addr);
                }
            }
        }
    }

    /// Takes note of the life that a peer says it is in.
    fn tell(&mut self, from: u64, session: u64) -> (restarted: Option<u64>)
        ensures
            final(self).config() == old(self).config(),
            final(self)@ == told(old(self)@, from, session),
            restart_told(old(self)@, from, session, restarted),
    {
        let newer = match self.sessions.get(&from) {
            Some(known) => session > *known,
            None => true,
        };
        if !newer {
            return None;
        }
        self.sessions.insert(from, session);
        self.watermark.remove(&from);
        Some(session)
    }

    fn past(&self, from: u64, session: u64) -> (r: bool)
        ensures
            r == is_past(self@, from, session),
    {
        match self.sessions.get(&from) {
            Some(known) => session < *known,
            None => false,
        }
    }

    fn knows_cipher(&self, cipher: &String) -> (r: bool)
        ensures
            r == crypto::lists(self.config().ciphers@, cipher@),
    {
        let mut i: usize = 0;
        while i < self.config.ciphers.len()
            invariant
                i <= self.config.ciphers@.len(),
                forall|k: int| 0 <= k < i ==> (#[trigger] self.config.ciphers@[k])@ != cipher@,
            decreases self.config.ciphers@.len() - i,
        {
            if self.config.ciphers[i] == *cipher {
                return true;
            }
            i = i + 1;
        }
        false
    }

    fn on_hello(&mut self, from: u64, seq: u64, h: Hello) -> (r: ControlStep)
        requires
            old(self).wf(),
        ensures
            final(self).wf(),
            final(self).config() == old(self).config(),
            final(self)@ == handled(
                old(self)@,
                old(self).config().ciphers@,
                from,
                seq,
                ControlMessage::Hello(h),
            ),
            hello_step(old(self)@, old(self).config(), from, seq, h, r),
    {
        proof {
            lemma_stays_bounded(self@, self.config().ciphers@, from, seq, ControlMessage::Hello(h));
        }
        if self.past(from, h.session) || self.lacks_room(from) {
            return ControlStep { restarted: None, ack: None, event: None };
        }
        let restarted = self.tell(from, h.session);
        if replay_stale(&mut self.watermark, from, seq) {
            return ControlStep { restarted, ack: None, event: None };
        }
        let cipher = select_cipher(h.ciphers.as_slice(), self.config.ciphers.as_slice());
        let ack = self.hello_ack(cipher.clone());
        self.enlist(
            PeerState {
                addr: from,
                hostname: h.hostname.clone(),
                capabilities: copy_texts(&h.capabilities),
                cipher,
            },
        );
        ControlStep {
            restarted,
            ack: Some(ack),
            event: Some(
                ControlEvent::Hello {
                    from,
                    hostname: h.hostname,
                    capabilities: h.capabilities,
                    ciphers: h.ciphers,
                },
            ),
        }
    }

    fn on_hello_ack(&mut self, from: u64, seq: u64, h: HelloAck) -> (r: ControlStep)
        requires
            old(self).wf(),
        ensures
            final(self).wf(),
            final(self).config() == old(self).config(),
            final(self)@ == handled(
                old(self)@,
                old(self).config().ciphers@,
                from,
                seq,
                ControlMessage::HelloAck(h),
            ),
            ack_step(old(self)@, from, seq, h, r),
    {
        proof {
            lemma_stays_bounded(self@, self.config().ciphers@, from, seq, ControlMessage::HelloAck(h));
        }
        if self.past(from, h.session) || self.lacks_room(from) {
            return ControlStep { restarted: None, ack: None, event: None };
        }
        let restarted = self.tell(from, h.session);
        if replay_stale(&mut self.watermark, from, seq) {
            return ControlStep { restarted, ack: None, event: None };
        }
        let cipher = if self.knows_cipher(&h.cipher) {
            h.cipher.clone()
        } else {
            BASELINE_CIPHER.to_owned()
        };
        self.enlist(
            PeerState {
                addr: from,
                hostname: h.hostname.clone(),
                capabilities: copy_texts(&h.capabilities),
                cipher,
            },
        );
        ControlStep {
            restarted,
            ack: None,
            event: Some(
                ControlEvent::HelloAck {
                    from,
                    hostname: h.hostname,
                    capabilities: h.capabilities,
                    ciphers: h.ciphers,
                    cipher: h.cipher,
                },
            ),
        }
    }

    /// Takes a control message that came under the number `seq`.
    pub fn handle(&mut self, from: u64, seq: u64, msg: ControlMessage) -> (r: ControlStep)
        requires
            old(self).wf(),
        ensures
            final(self).wf(),
            final(self).config() == old(self).config(),
            final(self)@ == handled(old(self)@, old(self).config().ciphers@, from, seq, msg),
            match msg {
                ControlMessage::Hello(h) => hello_step(
                    old(self)@,
                    old(self).config(),
                    from,
                    seq,
                    h,
                    r,
                ),
                ControlMessage::HelloAck(h) => ack_step(old(self)@, from, seq, h, r),
                _ => other_step(old(self)@, from, seq, msg, r),
            },
    {
        match msg {
            ControlMessage::Hello(h) => self.on_hello(from, seq, h),
            ControlMessage::HelloAck(h) => self.on_hello_ack(from, seq, h),
            other => {
                proof {
                    lemma_stays_bounded(self@, self.config().ciphers@, from, seq, other);
                }
                if self.lacks_mark(from) || replay_stale(&mut self.watermark, from, seq) {
                    return ControlStep { restarted: None, ack: None, event: None };
                }
                let event = match other {
                    ControlMessage::Keepalive(_) => Some(ControlEvent::Keepalive { from }),
                    ControlMessage::Goodbye(_) => Some(ControlEvent::Goodbye { from }),
                    ControlMessage::Other { type_, payload } => {
                        if type_ == TYPE_FOCUS_CHANGE || type_ == TYPE_METACONTROL || type_
                            == TYPE_KEYFRAME_REQ || type_ == TYPE_RATE_HINT {
                            Some(ControlEvent::Other { from, type_, payload })
                        } else {
                            None
                        }
                    },
                    _ => None,
                };
                ControlStep { restarted: None, ack: None, event }
            },
        }
    }

    /// Looks at the time: the peers that a keepalive goes to, and those that were not heard from
    /// for too long, which are peers no more.
    pub fn sweep(&mut self, seen: &HashMap<u64, u64>, now: u64, dead_after: u64) -> (r: (
        Vec<u64>,
        Vec<u64>,
    ))
        requires
            old(self).wf(),
        ensures
            final(self).wf(),
            final(self).config() == old(self).config(),
            r.0@ == addresses(old(self)@.peers),
            r.1@ == dead_peers(old(self)@.peers, seen@, now, dead_after),
            final(self)@ == (ControlModel {
                peers: alive_peers(old(self)@.peers, seen@, now, dead_after),
                ..old(self)@
            }),
    {
        let ghost all = self@.peers;
        let mut ping: Vec<u64> = Vec::new();
        let mut dead: Vec<u64> = Vec::new();
        let mut list: Vec<PeerState> = Vec::new();
        core::mem::swap(&mut list, &mut self.peers);
        let mut kept: Vec<PeerState> = Vec::new();
        let n = list.len();
        let mut i: usize = 0;
        proof {
            assert(peer_models(list@) =~= all);
            assert(all.take(0) =~= Seq::empty());
            assert(peer_models(kept@) =~= Seq::empty());
            assert(ping@ =~= addresses(all.take(0)));
        }
        while i < n
            invariant
                i <= n,
                n == all.len(),
                list@.len() == n - i,
                peer_models(list@) == all.skip(i as int),
                self.watermark == old(self).watermark,
                self.sessions == old(self).sessions,
                self.config == old(self).config,
                ping@ == addresses(all.take(i as int)),
                dead@ == dead_peers(all.take(i as int), seen@, now, dead_after),
                peer_models(kept@) == alive_peers(all.take(i as int), seen@, now, dead_after),
            decreases n - i,
        {
            let ghost front = all.take(i as int);
            let ghost kept_before = kept@;
            let ghost list_before = list@;
            let p = list.remove(0);
            proof {
                assert(peer_models(list_before)[0] == p@);
                assert(all[i as int] == p@);
                assert forall|k: int| 0 <= k < list@.len() implies #[trigger] peer_models(list@)[k]
                    == all.skip(i + 1)[k] by {
                    assert(peer_models(list_before)[k + 1] == all.skip(i as int)[k + 1]);
                }
                assert(peer_models(list@) =~= all.skip(i + 1));
                assert(all.take(i + 1).drop_last() =~= front);
                assert(addresses(all.take(i + 1)) =~= addresses(front).push(p.addr));
            }
            ping.push(p.addr);
            let alive = match seen.get(&p.addr) {
                Some(t) => now.saturating_sub(*t) < dead_after,
                None => false,
            };
            if alive {
                kept.push(p);
                assert(peer_models(kept@) =~= peer_models(kept_before).push(p@));
            } else {
                dead.push(p.addr);
            }
            i = i + 1;
        }
        proof {
            assert(all.take(n as int) =~= all);
            lemma_alive_distinct(all, seen@, now, dead_after);
        }
        self.peers = kept;
        (ping, dead)
    }
}

proof fn lemma_alive_distinct(
    peers: Seq<PeerModel>,
    seen: Map<u64, u64>,
    now: u64,
    dead_after: u64,
)
    requires
        addresses(peers).no_duplicates(),
    ensures
        addresses(alive_peers(peers, seen, now, dead_after)).no_duplicates(),
        alive_peers(peers, seen, now, dead_after).len() <= peers.len(),
    decreases peers.len(),
{
    if peers.len() > 0 {
        let front = peers.drop_last();
        let before = alive_peers(front, seen, now, dead_after);
        assert(addresses(front) =~= addresses(peers).drop_last());
        lemma_alive_distinct(front, seen, now, dead_after);
        if is_alive(last_heard(seen, peers.last().addr), now, dead_after) {
            let after = before.push(peers.last());
            assert forall|j: int| 0 <= j < before.len() implies (#[trigger] before[j]).addr
                != peers.last().addr by {
                lemma_sweep_exact(front, seen, now, dead_after, before[j]);
                assert(before.contains(before[j]));
                let k = front.index_of(before[j]);
                assert(addresses(peers)[k] == front[k].addr);
                assert(addresses(peers)[peers.len() - 1] == peers.last().addr);
            }
            assert(addresses(after) =~= addresses(before).push(peers.last().addr));
            assert forall|j: int, k: int|
                0 <= j < after.len() && 0 <= k < after.len() && j != k implies addresses(after)[j]
                != addresses(after)[k] by {
                if j < before.len() {
                    assert(addresses(before)[j] == before[j].addr);
                }
                if k < before.len() {
                    assert(addresses(before)[k] == before[k].addr);
                }
            }
        }
    }
}

/// Whether a step is right for an introduction: one that is heard is answered, committing to
/// the cipher that both speak, and the application is told.
pub open spec fn hello_step(
    m: ControlModel,
    config: ControlConfig,
    from: u64,
    seq: u64,
    h: Hello,
    r: ControlStep,
) -> bool {
    if is_ignored(m, from, h.session) {
        r.restarted is None && r.ack is None && r.event is None
    } else {
        &&& restart_told(m, from, h.session, r.restarted)
        &&& r.ack is Some <==> is_heard(m, from, seq, h.session)
        &&& r.ack matches Some(ack) ==> {
            &&& ack.hostname@ == config.hostname@
            &&& text::texts(ack.capabilities@) == text::texts(config.capabilities@)
            &&& text::texts(ack.ciphers@) == text::texts(config.ciphers@)
            &&& ack.cipher@ == crypto::agreed(h.ciphers@, config.ciphers@, 0)
            &&& ack.session == config.session
        }
        &&& r.event == if is_heard(m, from, seq, h.session) {
            Some(
                ControlEvent::Hello {
                    from,
                    hostname: h.hostname,
                    capabilities: h.capabilities,
                    ciphers: h.ciphers,
                },
            )
        } else {
            None
        }
    }
}

/// Whether a step is right for an answer to an introduction.
pub open spec fn ack_step(m: ControlModel, from: u64, seq: u64, h: HelloAck, r: ControlStep) -> bool {
    if is_ignored(m, from, h.session) {
        r.restarted is None && r.ack is None && r.event is None
    } else {
        &&& restart_told(m, from, h.session, r.restarted)
        &&& r.ack is None
        &&& r.event == if is_heard(m, from, seq, h.session) {
            Some(
                ControlEvent::HelloAck {
                    from,
                    hostname: h.hostname,
                    capabilities: h.capabilities,
                    ciphers: h.ciphers,
                    cipher: h.cipher,
                },
            )
        } else {
            None
        }
    }
}

/// Whether a step is right for any other message: one that is no replay, and whose number there
/// is room to remember, is told to the application, if it is of a known type.
pub open spec fn other_step(
    m: ControlModel,
    from: u64,
    seq: u64,
    msg: ControlMessage,
    r: ControlStep,
) -> bool {
    &&& r.restarted is None
    &&& r.ack is None
    &&& r.event == if no_mark_left(m, from) || replay::is_stale(m.marks, from, seq) {
        None
    } else {
        match msg {
            ControlMessage::Keepalive(_) => Some(ControlEvent::Keepalive { from }),
            ControlMessage::Goodbye(_) => Some(ControlEvent::Goodbye { from }),
            ControlMessage::Other { type_, payload } => if is_known(type_) {
                Some(ControlEvent::Other { from, type_, payload })
            } else {
                None
            },
            _ => None,
        }
    }
}

/// What is done about an introduction: one that is heard is answered, told to the application, and
/// nothing is said to be new but a new life; one of a past life, or for which there is no room, is
/// passed over in silence, and so is a replay, but for a new life, which it cannot be in.
pub proof fn lemma_hello_answered(
    m: ControlModel,
    config: ControlConfig,
    from: u64,
    seq: u64,
    h: Hello,
    r: ControlStep,
)
    requires
        hello_step(m, config, from, seq, h, r),
    ensures
        ({
            let known = m.sessions.contains_key(from);
            let room = (m.marks.contains_key(from) || m.marks.len() < MAX_PEERS) && (known
                || m.sessions.len() < MAX_PEERS) && (m.peers.len() < MAX_PEERS || exists|i: int|
                0 <= i < m.peers.len() && (#[trigger] m.peers[i]).addr == from);
            let starts = !known || h.session > m.sessions[from];
            let heard = room && (known ==> h.session >= m.sessions[from]) && (starts
                || !m.marks.contains_key(from) || seq > m.marks[from]);
            &&& heard <==> r.ack is Some
            &&& heard <==> r.event is Some
            &&& r.restarted == if room && starts {
                Some(h.session)
            } else {
                None
            }
            &&& r.ack matches Some(ack) ==> {
                &&& ack.session == config.session
                &&& ack.hostname@ == config.hostname@
                &&& ack.cipher@ == crypto::agreed(h.ciphers@, config.ciphers@, 0)
            }
            &&& r.event matches Some(e) ==> e == (ControlEvent::Hello {
                from,
                hostname: h.hostname,
                capabilities: h.capabilities,
                ciphers: h.ciphers,
            })
        }),
{
    lemma_introduction_heard(m, seq, h.session, hello_peer(config.ciphers@, from, h));
    lemma_room(m, from);
}

/// What is done about an answer to an introduction: the same, but that it is not answered.
pub proof fn lemma_answer_told(
    m: ControlModel,
    ours: Seq<String>,
    from: u64,
    seq: u64,
    h: HelloAck,
    r: ControlStep,
)
    requires
        ack_step(m, from, seq, h, r),
    ensures
        ({
            let known = m.sessions.contains_key(from);
            let room = (m.marks.contains_key(from) || m.marks.len() < MAX_PEERS) && (known
                || m.sessions.len() < MAX_PEERS) && (m.peers.len() < MAX_PEERS || exists|i: int|
                0 <= i < m.peers.len() && (#[trigger] m.peers[i]).addr == from);
            let starts = !known || h.session > m.sessions[from];
            let heard = room && (known ==> h.session >= m.sessions[from]) && (starts
                || !m.marks.contains_key(from) || seq > m.marks[from]);
            &&& r.ack is None
            &&& heard <==> r.event is Some
            &&& r.restarted == if room && starts {
                Some(h.session)
            } else {
                None
            }
            &&& r.event matches Some(e) ==> e == (ControlEvent::HelloAck {
                from,
                hostname: h.hostname,
                capabilities: h.capabilities,
                ciphers: h.ciphers,
                cipher: h.cipher,
            })
        }),
{
    lemma_introduction_heard(m, seq, h.session, ack_peer(ours, from, h));
    lemma_room(m, from);
}

proof fn lemma_room(m: ControlModel, from: u64)
    ensures
        no_room_left(m, from) <==> !((m.marks.contains_key(from) || m.marks.len() < MAX_PEERS) && (
        m.sessions.contains_key(from) || m.sessions.len() < MAX_PEERS) && (m.peers.len()
            < MAX_PEERS || exists|i: int|
            0 <= i < m.peers.len() && (#[trigger] m.peers[i]).addr == from)),
{
    if addresses(m.peers).contains(from) {
        let i = addresses(m.peers).index_of(from);
        assert(m.peers[i].addr == from);
    }
    if exists|i: int| 0 <= i < m.peers.len() && (#[trigger] m.peers[i]).addr == from {
        let i = choose|i: int| 0 <= i < m.peers.len() && (#[trigger] m.peers[i]).addr == from;
        assert(addresses(m.peers)[i] == from);
    }
}

/// What is done about any other message: it is told to the application once, as what it is and with
/// its sender, if it is of a known kind and newer than all that was heard of the sender; it is never
/// answered, and starts no life.
pub proof fn lemma_other_told(
    m: ControlModel,
    from: u64,
    seq: u64,
    msg: ControlMessage,
    r: ControlStep,
)
    requires
        other_step(m, from, seq, msg, r),
    ensures
        ({
            let newer = if m.marks.contains_key(from) {
                seq > m.marks[from]
            } else {
                m.marks.len() < MAX_PEERS
            };
            &&& r.ack is None
            &&& r.restarted is None
            &&& !newer ==> r.event is None
            &&& newer && msg is Keepalive ==> r.event == Some(ControlEvent::Keepalive { from })
            &&& newer && msg is Goodbye ==> r.event == Some(ControlEvent::Goodbye { from })
            &&& msg matches ControlMessage::Other { type_, payload } ==> r.event == if newer && (
            type_ == 4 || type_ == 5 || type_ == 7 || type_ == 8) {
                Some(ControlEvent::Other { from, type_, payload })
            } else {
                None
            }
        }),
{
    lemma_message_told(m, from, seq);
}

/// What is known of a peer is what it says of itself, under the address that it says it from, with the
/// cipher that both ends speak: of an introduction the one that is agreed on, of an answer the one
/// that it commits to.
pub proof fn lemma_peer_described(ours: Seq<String>, from: u64, h: Hello, a: HelloAck)
    ensures
        ({
            let p = hello_peer(ours, from, h);
            let q = ack_peer(ours, from, a);
            &&& p.addr == from && p.hostname == h.hostname@ && p.capabilities == text::texts(
                h.capabilities@,
            ) && p.cipher == crypto::agreed(h.ciphers@, ours, 0)
            &&& q.addr == from && q.hostname == a.hostname@ && q.capabilities == text::texts(
                a.capabilities@,
            ) && q.cipher == committed(ours, a.cipher@)
        }),
{
}

/// What a message leaves behind: an introduction and an answer to one, if they are heard, make their
/// sender a peer in the life that they tell, under its newest number; any other message, if it is
/// newer, its sender's newest number, and nothing else.
pub proof fn lemma_message_handled(
    m: ControlModel,
    ours: Seq<String>,
    from: u64,
    seq: u64,
    msg: ControlMessage,
)
    ensures
        ({
            let after = handled(m, ours, from, seq, msg);
            match msg {
                ControlMessage::Hello(h) => is_heard(m, from, seq, h.session) ==> {
                    &&& after.peers.contains(hello_peer(ours, from, h))
                    &&& after.sessions.contains_key(from) && after.sessions[from] == h.session
                    &&& after.marks.contains_key(from) && after.marks[from] == seq
                },
                ControlMessage::HelloAck(h) => is_heard(m, from, seq, h.session) ==> {
                    &&& after.peers.contains(ack_peer(ours, from, h))
                    &&& after.sessions.contains_key(from) && after.sessions[from] == h.session
                    &&& after.marks.contains_key(from) && after.marks[from] == seq
                },
                _ => {
                    &&& after.peers == m.peers
                    &&& after.sessions == m.sessions
                    &&& (if m.marks.contains_key(from) {
                        seq > m.marks[from]
                    } else {
                        m.marks.len() < MAX_PEERS
                    }) ==> after.marks.contains_key(from) && after.marks[from] == seq
                },
            }
        }),
{
    match msg {
        ControlMessage::Hello(h) => {
            lemma_introduction_heard(m, seq, h.session, hello_peer(ours, from, h));
        },
        ControlMessage::HelloAck(h) => {
            lemma_introduction_heard(m, seq, h.session, ack_peer(ours, from, h));
        },
        _ => {
            lemma_message_told(m, from, seq);
        },
    }
}

} // verus!
