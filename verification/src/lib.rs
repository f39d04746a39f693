pub mod assoc;
pub mod band;
pub mod base64;
pub mod board;
pub mod capability;
pub mod channel;
pub mod closing;
pub mod connection;
pub mod control;
pub mod crypto;
pub mod delivery;
pub mod discovery;
pub mod drop_channel;
pub mod framing;
pub mod hex;
pub mod hub;
pub mod octets;
pub mod order;
pub mod pairs;
pub mod pieces;
pub mod primitives;
pub mod producer;
pub mod replay;
pub mod session;
pub mod stream;
pub mod text;
pub mod transport;
pub mod wire;
