//! A session between one host and one client over a reliable stream and lossy datagrams.
pub mod conn;
pub mod crypto;
pub mod psk;
pub mod wire;
