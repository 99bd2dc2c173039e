//! Persistent, transferable memory database for AI agents: the verified core.
//!
//! Memory documents with cognitive layers and vector clocks, the binary
//! codecs of every side table, the adaptive radix tree key index, the binary
//! quantized flat index with Hamming ranking, the CRDT version agent and the
//! lexical tokenizer, each with its contract.

pub mod limits;
pub mod wire;
pub mod memory_doc;
pub mod clock;
pub mod error;
pub mod crdt;
pub mod text;
pub mod art;
pub mod audit;
pub mod conflict;
pub mod fingerprint;
pub mod order;
pub mod lexical;
pub mod negative;
pub mod ctype;
pub mod hamming_dispatch;
pub mod bq;
pub mod metrics;
pub mod era;
pub mod harness;
pub mod arbitration;
pub mod embedder;
pub mod lifecycle;
pub mod idx_snapshot;
pub mod meta;
pub mod doc;
pub mod delta;
pub mod side_keys;
