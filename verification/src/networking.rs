//! Exchanging values over byte streams.
pub mod wire;
pub mod connection;
pub mod tcp_stream;
