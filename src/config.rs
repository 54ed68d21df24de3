//! Validated chunking parameters.
use vstd::prelude::*;

verus! {

/// Smallest chunk of the standard configuration.
pub const STANDARD_MIN_CHUNK_SIZE: usize = 32;

/// Largest chunk of the standard configuration.
pub const STANDARD_MAX_CHUNK_SIZE: usize = 90;

/// Window length of the standard configuration.
pub const STANDARD_WINDOW_SIZE: usize = 32;

/// Boundary mask of the standard configuration: the low eight bits.
pub const STANDARD_BOUNDARY_MASK: u32 = 0xFF;

/// Why a configuration or a scan was refused.
#[derive(Clone, Copy, Debug, PartialEq, Eq, Structural)]
pub enum ChunkError {
    /// The sizes break `1 <= window_size <= min_chunk_size <= max_chunk_size`.
    InvalidConfig,
}

/// Parameters fixed for one scan.
///
/// A candidate cut offset `i` is tested on the window `data[i..i + window_size]`,
/// the bytes that follow it.
#[derive(Clone, Copy, Debug, PartialEq, Eq, Structural)]
pub struct ChunkingConfig {
    /// No cut is accepted before this many bytes are in the open chunk.
    pub min_chunk_size: usize,
    /// A cut is forced once the open chunk holds this many bytes.
    pub max_chunk_size: usize,
    /// Number of bytes the digest is taken over at each candidate offset.
    pub window_size: usize,
    /// An offset is a cut point when its window digest has every masked bit clear.
    pub boundary_mask: u32,
}

/// The size relations every configuration must satisfy.
pub open spec fn valid_sizes(min_chunk_size: int, max_chunk_size: int, window_size: int) -> bool {
    1 <= window_size <= min_chunk_size <= max_chunk_size
}

impl ChunkingConfig {
    pub open spec fn wf(&self) -> bool {
        valid_sizes(
            self.min_chunk_size as int,
            self.max_chunk_size as int,
            self.window_size as int,
        )
    }

    /// Builds a configuration, refusing sizes that break the invariant.
    pub fn new(min_chunk_size: usize, max_chunk_size: usize, window_size: usize, boundary_mask: u32)
        -> (r: Result<ChunkingConfig, ChunkError>)
        ensures
            valid_sizes(min_chunk_size as int, max_chunk_size as int, window_size as int) ==> r
                == Ok::<ChunkingConfig, ChunkError>(
                (ChunkingConfig { min_chunk_size, max_chunk_size, window_size, boundary_mask }),
            ),
            !valid_sizes(min_chunk_size as int, max_chunk_size as int, window_size as int) ==> r
                == Err::<ChunkingConfig, ChunkError>(ChunkError::InvalidConfig),
    {
        if window_size == 0 || window_size > min_chunk_size || min_chunk_size > max_chunk_size {
            Err(ChunkError::InvalidConfig)
        } else {
            Ok(ChunkingConfig { min_chunk_size, max_chunk_size, window_size, boundary_mask })
        }
    }

    /// The standard configuration as a value.
    pub open spec fn standard_spec() -> ChunkingConfig {
        ChunkingConfig {
            min_chunk_size: STANDARD_MIN_CHUNK_SIZE,
            max_chunk_size: STANDARD_MAX_CHUNK_SIZE,
            window_size: STANDARD_WINDOW_SIZE,
            boundary_mask: STANDARD_BOUNDARY_MASK,
        }
    }

    /// The configuration used by the plain-text listing: chunks of 32 to 90
    /// bytes, a 32-byte window, and a cut where the low eight digest bits are clear.
    pub fn standard() -> (r: ChunkingConfig)
        ensures
            r.wf(),
            r == Self::standard_spec(),
    {
        ChunkingConfig {
            min_chunk_size: STANDARD_MIN_CHUNK_SIZE,
            max_chunk_size: STANDARD_MAX_CHUNK_SIZE,
            window_size: STANDARD_WINDOW_SIZE,
            boundary_mask: STANDARD_BOUNDARY_MASK,
        }
    }
}

} // verus!
