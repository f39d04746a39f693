//! What a peer can announce that it is capable of. Names that a peer does not know it ignores.
use vstd::prelude::*;

verus! {

/// Shared graphics buffers on streams.
pub const DMABUF_V1: &'static str = "dmabuf-v1";

/// Reachable over a local socket.
pub const AF_UNIX: &'static str = "af-unix";

/// Fences with shared buffers.
pub const SYNC_FILE: &'static str = "sync-file";

/// Reuse of shared buffers.
pub const REUSE_V1: &'static str = "reuse-v1";

/// Reachable over WebTransport.
pub const WEBTRANSPORT: &'static str = "webtransport";

/// Answers requests for keyframes.
pub const KEYFRAME_REQ: &'static str = "keyframe-req";

/// Heeds hints about its rate.
pub const RATE_HINT: &'static str = "rate-hint";

} // verus!
