//! Verified core of a small audio-analysis server: a length-prefixed binary
//! codec for its fixed set of wire messages, the frame-reassembly algorithm
//! that cuts a TCP byte stream into those messages, an arena of
//! integer-handle pipeline objects, the chain that routes capture buffers
//! through analysis nodes, and the per-connection dispatch and throttling
//! logic. Audio backends and the floating-point transform kernel live
//! outside the library and talk to it through plain values.

pub mod analysis;
pub mod connection;
pub mod frame;
pub mod handle_map;
pub mod nodes;
pub mod messages;
