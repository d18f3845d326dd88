//! A length-framed, phase-scoped binary protocol engine: the variable-length
//! integer codec, the primitive field codec, the packet-type registry, the
//! incremental frame decoder, and the per-connection state machine that turns
//! an arbitrarily fragmented byte stream into typed packets and framed replies.

pub mod codec;
pub mod connection;
pub mod outside;
pub mod packet;
pub mod reader;
pub mod writer;
