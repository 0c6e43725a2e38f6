//! A small content-addressed version-control core: the object store codec,
//! tree and commit encoding, the staging-index format, the pack reader with
//! offset-delta reconstruction, the pack index, and pkt-line framing.
//!
//! Every function here works on bytes and plain values. Reading and writing
//! files, walking directories and talking to a server are left to the caller,
//! which hands the bytes in and carries the results out.

pub mod error;
pub mod kind;
pub mod text;
pub mod bytes;
pub mod digest;
pub mod zlib;
pub mod object;
pub mod order;
pub mod tree;
pub mod varint;
pub mod delta;
pub mod pack;
pub mod index;
pub mod http;
pub mod repository;
pub mod commit;
pub mod files;
