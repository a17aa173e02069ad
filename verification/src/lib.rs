//! The machinery of Git's smart transport.
//!
//! On the wire: [`pkt_line`] frames lines, and [`smart_http`] holds what a
//! client of the smart HTTP protocol sends and what it makes of the answers.
//! On the server: [`pack`] gathers the objects that a transfer needs from an
//! object store, [`repository`] looks after references, and [`ingest`] files
//! the objects of a push. [`object`] and [`hash`] say what objects and their
//! ids are, and [`store`] what is asked of an object store;
//! [`memory_store`] is a store that keeps everything in memory.
//!
//! [`buffer`], [`web_address`] and a few functions of [`text`], [`hash`]
//! and [`store`] state what is taken on trust from other crates.

pub mod buffer;
pub mod hash;
pub mod ingest;
pub mod memory_store;
pub mod meta_map;
pub mod object;
pub mod pack;
pub mod pkt_line;
pub mod repository;
pub mod smart_http;
pub mod store;
pub mod text;
pub mod web_address;
