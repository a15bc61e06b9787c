//! The RESP wire protocol: values, their encoding and decoding, and commands.
pub mod big_number;
pub mod command;
pub mod data_type;
pub mod decode;
pub mod display;
pub mod framing;
pub mod keys;
pub mod roundtrip;
