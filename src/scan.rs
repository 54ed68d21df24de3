//! The chunk scanner: turns a byte sequence into an ordered list of chunk extents.
use vstd::prelude::*;
use crate::config::ChunkingConfig;
use crate::hash::{
    boundary_spec, digest_modulus, hash_window, is_boundary, poly_hash, pow31, pow31_mod, roll,
};

verus! {

/// A chunk: the half-open byte range `[start, end)` of the scanned stream.
#[derive(Clone, Copy, Debug, PartialEq, Eq, Structural)]
pub struct Chunk {
    pub start: usize,
    pub end: usize,
}

impl Chunk {
    /// Number of bytes in the chunk.
    pub fn len(&self) -> (r: usize)
        requires
            self.start <= self.end,
        ensures
            r == self.end - self.start,
    {
        self.end - self.start
    }
}

/// Offset `i` is a cut point: its window fits in the data and its digest
/// passes the boundary test.
pub open spec fn window_hit(data: Seq<u8>, cfg: ChunkingConfig, i: int) -> bool {
    &&& 0 <= i
    &&& i + cfg.window_size <= data.len()
    &&& boundary_spec(
        poly_hash(data.subrange(i, i + cfg.window_size)),
        cfg.boundary_mask,
    )
}

/// The first cut point in `[i, limit)`, or `limit` when there is none.
pub open spec fn first_hit(data: Seq<u8>, cfg: ChunkingConfig, i: int, limit: int) -> int
    decreases limit - i,
{
    if i >= limit {
        limit
    } else if window_hit(data, cfg, i) {
        i
    } else {
        first_hit(data, cfg, i + 1, limit)
    }
}

/// Where the chunk opened at `start` must end at the latest.
pub open spec fn chunk_limit(data: Seq<u8>, cfg: ChunkingConfig, start: int) -> int {
    if start + cfg.max_chunk_size <= data.len() {
        start + cfg.max_chunk_size
    } else {
        data.len() as int
    }
}

/// End of the chunk opened at `start`: the first cut point at least
/// `min_chunk_size` bytes in, else the hard limit.
pub open spec fn cut_at(data: Seq<u8>, cfg: ChunkingConfig, start: int) -> int {
    first_hit(data, cfg, start + cfg.min_chunk_size, chunk_limit(data, cfg, start))
}

/// The chunks of `data` from offset `start` on.
pub open spec fn chunks_from(data: Seq<u8>, cfg: ChunkingConfig, start: int) -> Seq<Chunk>
    decreases data.len() - start,
{
    let c = cut_at(data, cfg, start);
    if start < 0 || start >= data.len() || c <= start || c > data.len() {
        Seq::empty()
    } else {
        seq![Chunk { start: start as usize, end: c as usize }] + chunks_from(data, cfg, c)
    }
}

/// The chunks of the whole of `data`.
pub open spec fn chunks_of(data: Seq<u8>, cfg: ChunkingConfig) -> Seq<Chunk> {
    chunks_from(data, cfg, 0)
}

/// `first_hit` stays within `[i, limit]` when `i <= limit`.
pub proof fn lemma_first_hit_range(data: Seq<u8>, cfg: ChunkingConfig, i: int, limit: int)
    requires
        i <= limit,
    ensures
        i <= first_hit(data, cfg, i, limit) <= limit,
        first_hit(data, cfg, i, limit) < limit ==> window_hit(
            data,
            cfg,
            first_hit(data, cfg, i, limit),
        ),
    decreases limit - i,
{
    if i < limit && !window_hit(data, cfg, i) {
        lemma_first_hit_range(data, cfg, i + 1, limit);
    }
}

/// A chunk opened inside the data ends after its start and within the data;
/// it holds at least `min_chunk_size` bytes unless it ends at the hard limit
/// and that limit is the end of the data.
pub proof fn lemma_cut_bounds(data: Seq<u8>, cfg: ChunkingConfig, start: int)
    requires
        cfg.wf(),
        0 <= start < data.len(),
    ensures
        start < cut_at(data, cfg, start) <= chunk_limit(data, cfg, start) <= data.len(),
        cut_at(data, cfg, start) - start <= cfg.max_chunk_size,
        cut_at(data, cfg, start) < data.len() ==> cut_at(data, cfg, start) - start
            >= cfg.min_chunk_size,
{
    let limit = chunk_limit(data, cfg, start);
    let lo = start + cfg.min_chunk_size;
    if lo <= limit {
        lemma_first_hit_range(data, cfg, lo, limit);
    }
}

/// End of the chunk opened at `start`. The window digest is computed once for
/// the first candidate and then rolled forward one byte per candidate.
fn find_cut(data: &[u8], cfg: &ChunkingConfig, start: usize) -> (r: usize)
    requires
        cfg.wf(),
        start < data@.len(),
    ensures
        r == cut_at(data@, *cfg, start as int),
{
    let len = data.len();
    let limit: usize = if cfg.max_chunk_size <= len - start {
        start + cfg.max_chunk_size
    } else {
        len
    };
    if cfg.min_chunk_size >= limit - start {
        return limit;
    }
    let lo: usize = start + cfg.min_chunk_size;
    let w = cfg.window_size;
    let factor = pow31_mod(w - 1);
    let mut digest: u32 = if w <= len - lo {
        hash_window(data, lo, lo + w)
    } else {
        0
    };
    let mut i: usize = lo;
    while i < limit
        invariant
            lo <= i <= limit <= len == data@.len(),
            lo == start + cfg.min_chunk_size,
            w == cfg.window_size >= 1,
            limit == chunk_limit(data@, *cfg, start as int),
            factor as int == pow31((w - 1) as nat) % digest_modulus(),
            i + w <= len ==> digest == poly_hash(data@.subrange(i as int, i + w)),
            first_hit(data@, *cfg, lo as int, limit as int) == first_hit(
                data@,
                *cfg,
                i as int,
                limit as int,
            ),
        decreases limit - i,
    {
        if w <= len - i {
            if is_boundary(digest, cfg.boundary_mask) {
                assert(window_hit(data@, *cfg, i as int));
                return i;
            }
            if w < len - i {
                digest = roll(data, i, w, digest, factor);
            }
        }
        i = i + 1;
    }
    limit
}

/// Bytes a streaming scanner must hold past a chunk's start before that
/// chunk's end is fixed: `max_chunk_size + window_size - 1`.
pub open spec fn lookahead(cfg: ChunkingConfig) -> int {
    cfg.max_chunk_size + cfg.window_size - 1
}

/// The length of the chunk that opens at the front of `pending`, the bytes of
/// the stream not yet cut, when it can be told: `at_end` says that the stream
/// ends after `pending`. `None` means that more bytes are needed, or that
/// nothing is left.
pub fn next_chunk_len(pending: &[u8], cfg: &ChunkingConfig, at_end: bool) -> (r: Option<usize>)
    requires
        cfg.wf(),
    ensures
        r == (if pending@.len() > 0 && (at_end || pending@.len() >= lookahead(*cfg)) {
            Some(cut_at(pending@, *cfg, 0) as usize)
        } else {
            None::<usize>
        }),
{
    let reach = cfg.max_chunk_size - 1;
    let enough = pending.len() >= reach && pending.len() - reach >= cfg.window_size;
    if pending.len() > 0 && (at_end || enough) {
        Some(find_cut(pending, cfg, 0))
    } else {
        None
    }
}

/// Scans `data` under `cfg` and returns its chunks in stream order.
pub fn scan_chunks(data: &[u8], cfg: &ChunkingConfig) -> (r: Vec<Chunk>)
    requires
        cfg.wf(),
    ensures
        r@ == chunks_of(data@, *cfg),
{
    let mut out: Vec<Chunk> = Vec::new();
    let mut start: usize = 0;
    while start < data.len()
        invariant
            cfg.wf(),
            start <= data@.len(),
            out@ + chunks_from(data@, *cfg, start as int) == chunks_of(data@, *cfg),
        decreases data@.len() - start,
    {
        let cut = find_cut(data, cfg, start);
        proof {
            lemma_cut_bounds(data@, *cfg, start as int);
            assert(out@.push(Chunk { start, end: cut }) + chunks_from(data@, *cfg, cut as int)
                =~= out@ + chunks_from(data@, *cfg, start as int));
        }
        out.push(Chunk { start, end: cut });
        start = cut;
    }
    proof {
        assert(chunks_from(data@, *cfg, start as int) =~= Seq::<Chunk>::empty());
        assert(out@ + Seq::<Chunk>::empty() =~= out@);
    }
    out
}

} // verus!
