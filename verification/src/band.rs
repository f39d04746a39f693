//! What a member of a band can be told when it joins.
use crate::control::ControlConfig;
use crate::crypto::{self, BASELINE_CIPHER};
use crate::text;
use vstd::prelude::*;

verus! {

/// What a member of a band can be told when it joins.
#[derive(Debug)]
pub struct BandOptions {
    /// Which of its lives the member is in; the present time in milliseconds where it is not
    /// said. A member whose clock may go back must say it.
    pub session: Option<u64>,
    /// The ciphers that it speaks, the one it likes best first.
    pub ciphers: Vec<String>,
    pub capabilities: Vec<String>,
    /// How often, in milliseconds, it says that it is there.
    pub keepalive_interval: u64,
    /// How long, in milliseconds, a peer may be silent.
    pub dead_after: u64,
    /// Whether it says that it is there, and drops silent peers, by itself.
    pub auto_keepalive: bool,
}

impl Default for BandOptions {
    fn default() -> (r: Self)
        ensures
            r.session is None,
            text::texts(r.ciphers@) == seq![BASELINE_CIPHER@],
            r.capabilities@.len() == 0,
            r.keepalive_interval == 5000,
            r.dead_after == 15000,
            r.auto_keepalive,
    {
        let mut ciphers: Vec<String> = Vec::new();
        ciphers.push(BASELINE_CIPHER.to_owned());
        assert(text::texts(ciphers@) =~= seq![BASELINE_CIPHER@]);
        BandOptions {
            session: None,
            ciphers,
            capabilities: Vec::new(),
            keepalive_interval: 5000,
            dead_after: 15000,
            auto_keepalive: true,
        }
    }
}

/// The life that a member says it is in.
pub open spec fn session_of(session: Option<u64>, now: u64) -> u64 {
    match session {
        Some(s) => s,
        None => now,
    }
}

impl BandOptions {
    /// What the member says of itself: under the given name, and with the cipher that all peers
    /// speak among its ciphers.
    pub fn introduce(self, hostname: String, now: u64) -> (r: ControlConfig)
        ensures
            r.session == session_of(self.session, now),
            r.hostname == hostname,
            r.capabilities == self.capabilities,
            text::texts(r.ciphers@) == crypto::with_baseline(text::texts(self.ciphers@)),
    {
        let session = match self.session {
            Some(s) => s,
            None => now,
        };
        let baseline = BASELINE_CIPHER.to_owned();
        let mut ciphers = self.ciphers;
        let ghost before = text::texts(ciphers@);
        let mut found = false;
        let mut i: usize = 0;
        while i < ciphers.len() && !found
            invariant
                i <= ciphers@.len(),
                before == text::texts(ciphers@),
                baseline@ == BASELINE_CIPHER@,
                found ==> before.contains(BASELINE_CIPHER@),
                !found ==> forall|k: int| 0 <= k < i ==> #[trigger] before[k] != BASELINE_CIPHER@,
            decreases
                    ciphers@.len() - i,
                    if found {
                        0int
                    } else {
                        1int
                    },
        {
            assert(before[i as int] == ciphers@[i as int]@);
            if ciphers[i] == baseline {
                found = true;
            } else {
                i = i + 1;
            }
        }
        if !found {
            assert(!before.contains(BASELINE_CIPHER@));
            ciphers.push(baseline);
            assert(text::texts(ciphers@) =~= before.push(BASELINE_CIPHER@));
        }
        ControlConfig { session, hostname, capabilities: self.capabilities, ciphers }
    }
}

} // verus!
