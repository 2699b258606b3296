//! Reader for LSPK game-package archives and an editor for the
//! attributed-element configuration documents they describe.
//!
//! The crate parses the packed binary header and compressed file table of an
//! archive, extracts one named entry's payload with per-entry decompression
//! dispatch, and merges a derived module summary into a player-profile
//! document tree with idempotent, order-preserving insertion.

pub mod bytes;
pub mod codec;
pub mod doc;
pub mod lspk;
pub mod merge;
