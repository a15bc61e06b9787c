//! A small Redis-compatible server: the RESP wire format, command decoding,
//! the key-value, list and stream stores, and the reply to each request.
pub mod handler;
pub mod protocol;
pub mod storage;
pub mod text;
