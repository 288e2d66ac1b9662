//! Columnar change codec for an Automerge-style CRDT backend.
//!
//! The crate encodes a logical change — a batch of operations produced by one
//! actor — into a self-describing binary chunk, and decodes such chunks back
//! into structured operations. A related document codec packs many changes
//! together. Contracts state the byte format exactly; round-trip laws are
//! proved where the format permits.

pub mod error;
pub mod types;
pub mod leb;
pub mod encoding;
pub mod delta;
pub mod strcol;
pub mod boolcol;
pub mod columnar;
pub mod hash;
pub mod change;
pub mod document;
