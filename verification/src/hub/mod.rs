//! A hub that relays sealed packets between the peers of a band, without being able to open
//! them.
pub mod config;
pub mod federation;
pub mod frame;
pub mod registry;
pub mod relay;
pub mod tls;
pub mod unix;
pub mod wt;
