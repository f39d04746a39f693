//! Byte layouts that ride inside band packets.
pub mod dmabuf;
pub mod fragment;
pub mod stream;
