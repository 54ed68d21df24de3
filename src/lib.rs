//! Content-defined chunking: a byte stream is cut into variable-length chunks
//! whose boundaries depend on the bytes around them, so that a local edit moves
//! only nearby boundaries.
//!
//! - `hash`: the window digest, fresh and rolled, and the boundary test.
//! - `config`: validated chunking parameters.
//! - `scan`: the scanner over a whole buffer, and the streaming decision.
//! - `laws`: what every scan satisfies, proved.
//! - `listing`: a plain-text rendering of the chunks.

pub mod config;
pub mod hash;
pub mod laws;
pub mod listing;
pub mod scan;

pub use config::{ChunkError, ChunkingConfig};
pub use hash::{hash_window, is_boundary, pow31_mod, roll, rolling_hash};
pub use listing::{quickcdc, write_listing};
pub use scan::{next_chunk_len, scan_chunks, Chunk};
