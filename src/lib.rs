//! A small content-addressed object store: loose-object codec, tree
//! encoding, pack-stream decoding with delta resolution, and the
//! smart-HTTP reference discovery protocol.
pub mod buf;
pub mod commit;
pub mod delta;
pub mod digits;
pub mod error;
pub mod object;
pub mod pack;
pub mod primitives;
pub mod refs;
pub mod remote;
pub mod tree;
pub mod varint;
