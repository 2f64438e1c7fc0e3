//! Receiver side of a DNS tunnel: a DNS wire codec, the decoding of query
//! labels into message chunks, and their reassembly in a bounded cache.

pub mod alphabet;
pub mod buffer;
pub mod cache;
pub mod chunk;
pub mod packet;
pub mod response;
pub mod server;
pub mod wire;
