//! Properties of the chunk sequence that hold for every input.
use vstd::prelude::*;
use crate::config::ChunkingConfig;
use crate::scan::{
    lemma_first_hit_range, lookahead, chunk_limit, chunks_from, chunks_of, cut_at, first_hit, lemma_cut_bounds, window_hit, Chunk,
};

verus! {

/// The bytes of `chunks`, taken from `data` and joined in order.
pub open spec fn concat_chunks(data: Seq<u8>, chunks: Seq<Chunk>) -> Seq<u8>
    decreases chunks.len(),
{
    if chunks.len() == 0 {
        Seq::empty()
    } else {
        data.subrange(chunks[0].start as int, chunks[0].end as int) + concat_chunks(
            data,
            chunks.drop_first(),
        )
    }
}

/// Consecutive chunks meet: each one starts where the one before it ended.
pub open spec fn contiguous(chunks: Seq<Chunk>) -> bool {
    forall|k: int| 0 <= k < chunks.len() - 1 ==> #[trigger] chunks[k].end == chunks[k + 1].start
}

/// Every chunk is non-empty and at most `max_chunk_size` long, and every chunk
/// but the last is at least `min_chunk_size` long.
pub open spec fn sizes_within(chunks: Seq<Chunk>, cfg: ChunkingConfig) -> bool {
    &&& forall|k: int|
        0 <= k < chunks.len() ==> {
            &&& #[trigger] chunks[k].start < chunks[k].end
            &&& chunks[k].end - chunks[k].start <= cfg.max_chunk_size
        }
    &&& forall|k: int|
        0 <= k < chunks.len() - 1 ==> #[trigger] chunks[k].end - chunks[k].start
            >= cfg.min_chunk_size
}

/// One step of the scan: the chunk opened at `start`, then the chunks from its end.
proof fn lemma_chunks_from_unfold(data: Seq<u8>, cfg: ChunkingConfig, start: int)
    requires
        cfg.wf(),
        0 <= start < data.len() <= usize::MAX,
    ensures
        start < cut_at(data, cfg, start) <= data.len(),
        chunks_from(data, cfg, start) == seq![
            Chunk { start: start as usize, end: cut_at(data, cfg, start) as usize },
        ] + chunks_from(data, cfg, cut_at(data, cfg, start)),
        chunks_from(data, cfg, start).len() == chunks_from(
            data,
            cfg,
            cut_at(data, cfg, start),
        ).len() + 1,
{
    lemma_cut_bounds(data, cfg, start);
}

/// The chunks from offset `start` lie one after another in `data[start..]`,
/// within the size bounds.
proof fn lemma_chunks_from_tiling(data: Seq<u8>, cfg: ChunkingConfig, start: int)
    requires
        cfg.wf(),
        0 <= start <= data.len() <= usize::MAX,
    ensures
        ({
            let c = chunks_from(data, cfg, start);
            &&& c.len() == 0 <==> start == data.len()
            &&& c.len() > 0 ==> c[0].start == start && c.last().end == data.len()
            &&& forall|k: int| 0 <= k < c.len() ==> #[trigger] c[k].start >= start
            &&& forall|k: int| 0 <= k < c.len() ==> #[trigger] c[k].end <= data.len()
            &&& contiguous(c)
            &&& sizes_within(c, cfg)
        }),
    decreases data.len() - start,
{
    if start < data.len() {
        let c = chunks_from(data, cfg, start);
        lemma_chunks_from_unfold(data, cfg, start);
        lemma_cut_bounds(data, cfg, start);
        let cut = cut_at(data, cfg, start);
        let rest = chunks_from(data, cfg, cut);
        lemma_chunks_from_tiling(data, cfg, cut);
        assert(forall|k: int| 0 < k < c.len() ==> c[k] == rest[k - 1]);
        assert(c[0].start == start && c[0].end == cut);
        if rest.len() > 0 {
            assert(c.last() == rest.last());
        }
        assert(contiguous(c)) by {
            assert forall|k: int| 0 <= k < c.len() - 1 implies #[trigger] c[k].end == c[k
                + 1].start by {
                if k > 0 {
                    assert(c[k] == rest[k - 1]);
                    assert(c[k + 1] == rest[k]);
                }
            }
        }
        assert(sizes_within(c, cfg)) by {
            assert forall|k: int| 0 <= k < c.len() - 1 implies #[trigger] c[k].end - c[k].start
                >= cfg.min_chunk_size by {
                if k > 0 {
                    assert(c[k] == rest[k - 1]);
                } else {
                    assert(rest.len() > 0);
                }
            }
        }
    }
}

/// The chunks from offset `start` hold, joined, exactly `data[start..]`.
proof fn lemma_chunks_from_concat(data: Seq<u8>, cfg: ChunkingConfig, start: int)
    requires
        cfg.wf(),
        0 <= start <= data.len() <= usize::MAX,
    ensures
        concat_chunks(data, chunks_from(data, cfg, start)) == data.subrange(
            start,
            data.len() as int,
        ),
    decreases data.len() - start,
{
    if start == data.len() {
        assert(data.subrange(start, data.len() as int) =~= Seq::<u8>::empty());
    } else {
        let c = chunks_from(data, cfg, start);
        lemma_chunks_from_unfold(data, cfg, start);
        let cut = cut_at(data, cfg, start);
        let rest = chunks_from(data, cfg, cut);
        lemma_chunks_from_concat(data, cfg, cut);
        assert(c.drop_first() =~= rest);
        assert(concat_chunks(data, c) == data.subrange(start, cut) + concat_chunks(data, rest));
        assert(data.subrange(start, cut) + data.subrange(cut, data.len() as int) =~= data.subrange(
            start,
            data.len() as int,
        ));
    }
}

/// Joining the chunks' bytes in order gives back the scanned data.
pub proof fn lemma_reconstruction(data: Seq<u8>, cfg: ChunkingConfig)
    requires
        cfg.wf(),
        data.len() <= usize::MAX,
    ensures
        concat_chunks(data, chunks_of(data, cfg)) == data,
{
    lemma_chunks_from_concat(data, cfg, 0);
    assert(data.subrange(0, data.len() as int) =~= data);
}

/// The chunks tile the data: the first starts at 0, each next one starts where
/// the previous ended, and the last ends at the data's length; there are none
/// exactly when the data is empty.
pub proof fn lemma_exhaustive(data: Seq<u8>, cfg: ChunkingConfig)
    requires
        cfg.wf(),
        data.len() <= usize::MAX,
    ensures
        ({
            let c = chunks_of(data, cfg);
            &&& c.len() == 0 <==> data.len() == 0
            &&& c.len() > 0 ==> c[0].start == 0 && c.last().end == data.len()
            &&& contiguous(c)
            &&& forall|k: int| 0 <= k < c.len() ==> #[trigger] c[k].start < c[k].end <= data.len()
        }),
{
    lemma_chunks_from_tiling(data, cfg, 0);
}

/// Every chunk but the last holds between `min_chunk_size` and `max_chunk_size`
/// bytes; the last holds between 1 and `max_chunk_size`.
pub proof fn lemma_size_bounds(data: Seq<u8>, cfg: ChunkingConfig)
    requires
        cfg.wf(),
        data.len() <= usize::MAX,
    ensures
        sizes_within(chunks_of(data, cfg), cfg),
{
    lemma_chunks_from_tiling(data, cfg, 0);
}

/// A stream with no bytes has no chunks.
pub proof fn lemma_empty_input(cfg: ChunkingConfig)
    requires
        cfg.wf(),
    ensures
        chunks_of(Seq::<u8>::empty(), cfg) == Seq::<Chunk>::empty(),
{
    lemma_chunks_from_tiling(Seq::<u8>::empty(), cfg, 0);
}

/// Scanning equal data under one configuration gives equal chunk lists.
pub proof fn lemma_deterministic(d1: Seq<u8>, d2: Seq<u8>, cfg: ChunkingConfig)
    requires
        d1 == d2,
    ensures
        chunks_of(d1, cfg) == chunks_of(d2, cfg),
{
}

/// Every chunk of `c2` is the chunk at the same place in `c1`, moved by `delta`.
pub open spec fn shifted_by(c1: Seq<Chunk>, c2: Seq<Chunk>, delta: int) -> bool {
    forall|k: int|
        0 <= k < c1.len() ==> #[trigger] c2[k].start == c1[k].start + delta && c2[k].end == c1[k].end
            + delta
}

/// Two runs of the cut search agree when the boundary tests they make agree,
/// offset by `delta`.
proof fn lemma_first_hit_congruent(
    d1: Seq<u8>,
    d2: Seq<u8>,
    cfg: ChunkingConfig,
    i: int,
    limit: int,
    delta: int,
)
    requires
        forall|j: int| i <= j < limit ==> window_hit(d1, cfg, j) == window_hit(d2, cfg, j + delta),
    ensures
        first_hit(d2, cfg, i + delta, limit + delta) == first_hit(d1, cfg, i, limit) + delta,
    decreases limit - i,
{
    if i < limit && !window_hit(d1, cfg, i) {
        lemma_first_hit_congruent(d1, d2, cfg, i + 1, limit, delta);
        assert(i + 1 + delta == i + delta + 1);
    }
}

/// Data equal from `s1` on in `d1` and from `s2` on in `d2` is cut the same way
/// from those offsets on, up to the shift `s2 - s1`.
proof fn lemma_shifted_chunks(d1: Seq<u8>, d2: Seq<u8>, cfg: ChunkingConfig, s1: int, s2: int)
    requires
        cfg.wf(),
        0 <= s1 <= d1.len() <= usize::MAX,
        0 <= s2 <= d2.len() <= usize::MAX,
        d1.subrange(s1, d1.len() as int) == d2.subrange(s2, d2.len() as int),
    ensures
        ({
            let c1 = chunks_from(d1, cfg, s1);
            let c2 = chunks_from(d2, cfg, s2);
            &&& c2.len() == c1.len()
            &&& shifted_by(c1, c2, s2 - s1)
        }),
    decreases d1.len() - s1,
{
    let delta = s2 - s1;
    let t1 = d1.subrange(s1, d1.len() as int);
    let t2 = d2.subrange(s2, d2.len() as int);
    assert(t1.len() == t2.len());
    if s1 == d1.len() {
        assert(s2 == d2.len());
        assert(chunks_from(d1, cfg, s1).len() == 0);
        assert(chunks_from(d2, cfg, s2).len() == 0);
    } else {
        let limit = chunk_limit(d1, cfg, s1);
        let lo = s1 + cfg.min_chunk_size;
        assert forall|j: int| lo <= j < limit implies window_hit(d1, cfg, j) == window_hit(
            d2,
            cfg,
            j + delta,
        ) by {
            if j + cfg.window_size <= d1.len() {
                assert(d1.subrange(j, j + cfg.window_size) =~= t1.subrange(
                    j - s1,
                    j - s1 + cfg.window_size,
                ));
                assert(d2.subrange(j + delta, j + delta + cfg.window_size) =~= t2.subrange(
                    j - s1,
                    j - s1 + cfg.window_size,
                ));
            }
        }
        lemma_first_hit_congruent(d1, d2, cfg, lo, limit, delta);
        assert(chunk_limit(d2, cfg, s2) == limit + delta);
        let cut1 = cut_at(d1, cfg, s1);
        let cut2 = cut_at(d2, cfg, s2);
        assert(cut2 == cut1 + delta);
        lemma_chunks_from_unfold(d1, cfg, s1);
        lemma_chunks_from_unfold(d2, cfg, s2);
        assert(d1.subrange(cut1, d1.len() as int) =~= t1.subrange(cut1 - s1, t1.len() as int));
        assert(d2.subrange(cut2, d2.len() as int) =~= t2.subrange(cut1 - s1, t2.len() as int));
        lemma_shifted_chunks(d1, d2, cfg, cut1, cut2);
        let c1 = chunks_from(d1, cfg, s1);
        let c2 = chunks_from(d2, cfg, s2);
        let r1 = chunks_from(d1, cfg, cut1);
        let r2 = chunks_from(d2, cfg, cut2);
        assert forall|k: int| 0 <= k < c1.len() implies #[trigger] c2[k].start == c1[k].start + delta
            && c2[k].end == c1[k].end + delta by {
            if k == 0 {
                assert(c1[0] == Chunk { start: s1 as usize, end: cut1 as usize });
                assert(c2[0] == Chunk { start: s2 as usize, end: cut2 as usize });
            } else {
                assert(c1[k] == r1[k - 1]);
                assert(c2[k] == r2[k - 1]);
                assert(r2[k - 1].start == r1[k - 1].start + delta);
            }
        }
        assert(shifted_by(c1, c2, delta));
    }
}

/// The chunks from `start` on, past the first `k`, are the chunks from the
/// start of the `k`-th one on.
proof fn lemma_chunks_tail(data: Seq<u8>, cfg: ChunkingConfig, start: int, k: int)
    requires
        cfg.wf(),
        0 <= start <= data.len() <= usize::MAX,
        0 <= k < chunks_from(data, cfg, start).len(),
    ensures
        chunks_from(data, cfg, start).subrange(k, chunks_from(data, cfg, start).len() as int)
            == chunks_from(data, cfg, chunks_from(data, cfg, start)[k].start as int),
        start <= chunks_from(data, cfg, start)[k].start < data.len(),
    decreases k,
{
    let c = chunks_from(data, cfg, start);
    lemma_chunks_from_unfold(data, cfg, start);
    let cut = cut_at(data, cfg, start);
    let rest = chunks_from(data, cfg, cut);
    if k == 0 {
        assert(c.subrange(0, c.len() as int) =~= c);
    } else {
        lemma_chunks_tail(data, cfg, cut, k - 1);
        assert(c[k] == rest[k - 1]);
        assert(c.subrange(k, c.len() as int) =~= rest.subrange(k - 1, rest.len() as int));
    }
}

/// Offset where the `k`-th chunk of `data` starts; for `k` equal to the number
/// of chunks, the end of the data.
pub open spec fn chunk_offset(data: Seq<u8>, cfg: ChunkingConfig, k: int) -> int {
    if k < chunks_of(data, cfg).len() {
        chunks_of(data, cfg)[k].start as int
    } else {
        data.len() as int
    }
}

/// Locality after an edit: when `d1` and `d2` are identical from a chunk
/// boundary of each (the start of their chunk `k1`, resp. `k2`, or their end)
/// to their ends, then all chunks from there on coincide, shifted by the
/// difference of the two offsets.
pub proof fn lemma_locality_after_edit(
    d1: Seq<u8>,
    d2: Seq<u8>,
    cfg: ChunkingConfig,
    k1: int,
    k2: int,
)
    requires
        cfg.wf(),
        d1.len() <= usize::MAX,
        d2.len() <= usize::MAX,
        0 <= k1 <= chunks_of(d1, cfg).len(),
        0 <= k2 <= chunks_of(d2, cfg).len(),
        d1.subrange(chunk_offset(d1, cfg, k1), d1.len() as int) == d2.subrange(
            chunk_offset(d2, cfg, k2),
            d2.len() as int,
        ),
    ensures
        ({
            let c1 = chunks_of(d1, cfg);
            let c2 = chunks_of(d2, cfg);
            let shift = chunk_offset(d2, cfg, k2) - chunk_offset(d1, cfg, k1);
            &&& c2.len() - k2 == c1.len() - k1
            &&& forall|j: int|
                0 <= j < c1.len() - k1 ==> #[trigger] c2[k2 + j].start == c1[k1 + j].start + shift
                    && c2[k2 + j].end == c1[k1 + j].end + shift
        }),
{
    let c1 = chunks_of(d1, cfg);
    let c2 = chunks_of(d2, cfg);
    let s1 = chunk_offset(d1, cfg, k1);
    let s2 = chunk_offset(d2, cfg, k2);
    if k1 < c1.len() {
        lemma_chunks_tail(d1, cfg, 0, k1);
    }
    if k2 < c2.len() {
        lemma_chunks_tail(d2, cfg, 0, k2);
    }
    if k1 == c1.len() || k2 == c2.len() {
        // One side is at its end, so the shared rest is empty and so is the other side's.
        assert(d1.subrange(s1, d1.len() as int).len() == d1.len() - s1);
        assert(d2.subrange(s2, d2.len() as int).len() == d2.len() - s2);
    } else {
        lemma_shifted_chunks(d1, d2, cfg, s1, s2);
        let t1 = chunks_from(d1, cfg, s1);
        let t2 = chunks_from(d2, cfg, s2);
        assert forall|j: int| 0 <= j < c1.len() - k1 implies #[trigger] c2[k2 + j].start == c1[k1
            + j].start + (s2 - s1) && c2[k2 + j].end == c1[k1 + j].end + (s2 - s1) by {
            assert(c1[k1 + j] == t1[j]);
            assert(c2[k2 + j] == t2[j]);
        }
    }
}

/// The cut search stops at the same place in two streams when the tests up
/// to that place agree and that place is still a candidate in the second.
proof fn lemma_first_hit_up_to(
    d1: Seq<u8>,
    d2: Seq<u8>,
    cfg: ChunkingConfig,
    i: int,
    l1: int,
    l2: int,
)
    requires
        i <= first_hit(d1, cfg, i, l1) < l1,
        first_hit(d1, cfg, i, l1) < l2,
        forall|j: int|
            i <= j <= first_hit(d1, cfg, i, l1) ==> window_hit(d1, cfg, j) == window_hit(
                d2,
                cfg,
                j,
            ),
    ensures
        first_hit(d2, cfg, i, l2) == first_hit(d1, cfg, i, l1),
    decreases l1 - i,
{
    if !window_hit(d1, cfg, i) {
        lemma_first_hit_range(d1, cfg, i + 1, l1);
        lemma_first_hit_up_to(d1, d2, cfg, i + 1, l1, l2);
    }
}

/// A chunk whose end and the window after it lie in a prefix that two streams
/// share ends at the same place in both.
proof fn lemma_cut_in_prefix(d1: Seq<u8>, d2: Seq<u8>, cfg: ChunkingConfig, p: int, s: int)
    requires
        cfg.wf(),
        0 <= s < d1.len(),
        0 <= p <= d1.len(),
        p <= d2.len(),
        d1.subrange(0, p) == d2.subrange(0, p),
        cut_at(d1, cfg, s) + cfg.window_size <= p,
    ensures
        cut_at(d2, cfg, s) == cut_at(d1, cfg, s),
{
    let w = cfg.window_size as int;
    let e = cut_at(d1, cfg, s);
    let l1 = chunk_limit(d1, cfg, s);
    let l2 = chunk_limit(d2, cfg, s);
    let lo = s + cfg.min_chunk_size;
    lemma_cut_bounds(d1, cfg, s);
    assert forall|j: int| lo <= j && j + w <= p implies window_hit(d1, cfg, j) == window_hit(
        d2,
        cfg,
        j,
    ) by {
        assert(d1.subrange(j, j + w) =~= d1.subrange(0, p).subrange(j, j + w));
        assert(d2.subrange(j, j + w) =~= d2.subrange(0, p).subrange(j, j + w));
    }
    if e < l1 {
        lemma_first_hit_range(d1, cfg, lo, l1);
        lemma_first_hit_up_to(d1, d2, cfg, lo, l1, l2);
    } else {
        assert(l1 == s + cfg.max_chunk_size);
        assert(l2 == l1);
        lemma_first_hit_congruent(d1, d2, cfg, lo, l1, 0);
    }
}

/// Locality before an edit: when two streams agree on their first `p` bytes,
/// every chunk of the first that ends at least `window_size` bytes before `p`
/// is also, at the same place in the list, a chunk of the second.
pub proof fn lemma_locality_before_edit(d1: Seq<u8>, d2: Seq<u8>, cfg: ChunkingConfig, p: int)
    requires
        cfg.wf(),
        d1.len() <= usize::MAX,
        d2.len() <= usize::MAX,
        0 <= p <= d1.len(),
        p <= d2.len(),
        d1.subrange(0, p) == d2.subrange(0, p),
    ensures
        forall|k: int|
            0 <= k < chunks_of(d1, cfg).len() && #[trigger] chunks_of(d1, cfg)[k].end
                + cfg.window_size <= p ==> k < chunks_of(d2, cfg).len() && chunks_of(d2, cfg)[k]
                == chunks_of(d1, cfg)[k],
{
    lemma_prefix_chunks(d1, d2, cfg, p, 0);
}

proof fn lemma_prefix_chunks(d1: Seq<u8>, d2: Seq<u8>, cfg: ChunkingConfig, p: int, s: int)
    requires
        cfg.wf(),
        d1.len() <= usize::MAX,
        d2.len() <= usize::MAX,
        0 <= p <= d1.len(),
        p <= d2.len(),
        0 <= s <= d1.len(),
        s <= d2.len(),
        d1.subrange(0, p) == d2.subrange(0, p),
    ensures
        forall|k: int|
            0 <= k < chunks_from(d1, cfg, s).len() && #[trigger] chunks_from(d1, cfg, s)[k].end
                + cfg.window_size <= p ==> k < chunks_from(d2, cfg, s).len() && chunks_from(
                d2,
                cfg,
                s,
            )[k] == chunks_from(d1, cfg, s)[k],
    decreases d1.len() - s,
{
    let c1 = chunks_from(d1, cfg, s);
    let c2 = chunks_from(d2, cfg, s);
    if s < d1.len() {
        lemma_chunks_from_unfold(d1, cfg, s);
        let cut = cut_at(d1, cfg, s);
        let r1 = chunks_from(d1, cfg, cut);
        lemma_chunks_from_tiling(d1, cfg, cut);
        if cut + cfg.window_size > p {
            assert forall|k: int| 0 <= k < c1.len() implies #[trigger] c1[k].end
                + cfg.window_size > p by {
                if k > 0 {
                    assert(c1[k] == r1[k - 1]);
                }
            }
        } else {
            lemma_cut_in_prefix(d1, d2, cfg, p, s);
            assert(s < d2.len());
            lemma_chunks_from_unfold(d2, cfg, s);
            lemma_prefix_chunks(d1, d2, cfg, p, cut);
            let r2 = chunks_from(d2, cfg, cut);
            assert forall|k: int|
                0 <= k < c1.len() && #[trigger] c1[k].end + cfg.window_size
                    <= p implies k < c2.len() && c2[k] == c1[k] by {
                if k == 0 {
                    assert(c1[0] == Chunk { start: s as usize, end: cut as usize });
                    assert(c2[0] == Chunk { start: s as usize, end: cut as usize });
                } else {
                    assert(c1[k] == r1[k - 1]);
                    assert(r1[k - 1].end + cfg.window_size <= p);
                    assert(c2[k] == r2[k - 1]);
                }
            }
        }
    }
}

/// Bounded look-ahead: the end of every chunk is fixed by the bytes from its
/// start on, up to `lookahead` of them or to the end of the stream. Cutting
/// only that buffered part gives the same chunk as scanning the whole stream.
pub proof fn lemma_lookahead_suffices(d: Seq<u8>, cfg: ChunkingConfig, j: int, k: int)
    requires
        cfg.wf(),
        d.len() <= usize::MAX,
        0 <= j < chunks_of(d, cfg).len(),
        chunks_of(d, cfg)[j].start + k <= d.len(),
        chunks_of(d, cfg)[j].start + k == d.len() || k >= lookahead(cfg),
    ensures
        cut_at(
            d.subrange(chunks_of(d, cfg)[j].start as int, chunks_of(d, cfg)[j].start + k),
            cfg,
            0,
        ) == chunks_of(d, cfg)[j].end - chunks_of(d, cfg)[j].start,
{
    let c = chunks_of(d, cfg);
    let s = c[j].start as int;
    lemma_chunks_tail(d, cfg, 0, j);
    lemma_chunks_from_unfold(d, cfg, s);
    assert(c[j] == c.subrange(j, c.len() as int)[0]);
    let b = d.subrange(s, s + k);
    let limit = chunk_limit(b, cfg, 0);
    let lo = cfg.min_chunk_size as int;
    assert(limit + s == chunk_limit(d, cfg, s));
    assert forall|i: int| lo <= i < limit implies window_hit(b, cfg, i) == window_hit(
        d,
        cfg,
        i + s,
    ) by {
        if i + cfg.window_size <= k {
            assert(b.subrange(i, i + cfg.window_size) =~= d.subrange(
                i + s,
                i + s + cfg.window_size,
            ));
        }
    }
    lemma_first_hit_congruent(b, d, cfg, lo, limit, s);
}

} // verus!
