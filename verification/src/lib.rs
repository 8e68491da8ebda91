//! Content-addressed object model, wire framing and pack decoding for a
//! small version-control store.

pub mod hash;
pub mod text;
pub mod frame;
pub mod blob;
pub mod tree;
pub mod builder;
pub mod commit;
pub mod object;
pub mod zlib;
pub mod pktline;
pub mod varint;
pub mod packfile;
pub mod delta;
pub mod resolve;
pub mod store;
pub mod clone;
