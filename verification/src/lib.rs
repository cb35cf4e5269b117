//! A dependency-aware dataflow engine: a directed graph of script-backed
//! blocks, re-evaluated deterministically, with incremental invalidation,
//! value marshaling towards an embedded interpreter, and an encrypted
//! persistence codec.

pub mod block;
pub mod clipboard;
pub mod connection;
pub mod crypto;
pub mod definition;
pub mod executor;
pub mod geometry;
pub mod graph;
pub mod group;
pub mod ids;
pub mod kvmap;
pub mod layer;
pub mod loader;
pub mod marshal;
pub mod package;
pub mod parser;
pub mod registry;
pub mod storage;
pub mod text;
pub mod topo;
pub mod usb;
pub mod value;
