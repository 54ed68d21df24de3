//! A plain-text listing of a stream's chunks, for people to read.
use vstd::prelude::*;
use crate::config::ChunkingConfig;
use crate::scan::{chunks_of, scan_chunks, Chunk};

verus! {

/// The line written after every chunk: a newline, three dashes, a newline.
pub open spec fn separator() -> Seq<u8> {
    seq![10u8, 45u8, 45u8, 45u8, 10u8]
}

/// Each chunk fits in `data` and is not reversed.
pub open spec fn chunks_fit(data: Seq<u8>, chunks: Seq<Chunk>) -> bool {
    forall|k: int| 0 <= k < chunks.len() ==> #[trigger] chunks[k].start <= chunks[k].end <= data.len()
}

/// Each chunk's bytes followed by the separator, in order.
pub open spec fn framed(data: Seq<u8>, chunks: Seq<Chunk>) -> Seq<u8>
    decreases chunks.len(),
{
    if chunks.len() == 0 {
        Seq::empty()
    } else {
        framed(data, chunks.drop_last()) + data.subrange(
            chunks.last().start as int,
            chunks.last().end as int,
        ) + separator()
    }
}

/// Appends the bytes `data[from..to]` to `out`.
fn push_range(data: &[u8], from: usize, to: usize, out: &mut Vec<u8>)
    requires
        from <= to <= data@.len(),
    ensures
        final(out)@ == old(out)@ + data@.subrange(from as int, to as int),
{
    let mut i: usize = from;
    while i < to
        invariant
            from <= i <= to <= data@.len(),
            out@ == old(out)@ + data@.subrange(from as int, i as int),
        decreases to - i,
    {
        proof {
            assert(data@.subrange(from as int, i + 1) =~= data@.subrange(from as int, i as int).push(
                data@[i as int],
            ));
        }
        out.push(data[i]);
        i = i + 1;
    }
}

/// Appends the listing of `chunks` over `data` to `out`: each chunk's bytes
/// followed by the separator line.
pub fn write_listing(data: &[u8], chunks: &Vec<Chunk>, out: &mut Vec<u8>)
    requires
        chunks_fit(data@, chunks@),
    ensures
        final(out)@ == old(out)@ + framed(data@, chunks@),
{
    let mut i: usize = 0;
    while i < chunks.len()
        invariant
            chunks_fit(data@, chunks@),
            i <= chunks@.len(),
            out@ == old(out)@ + framed(data@, chunks@.take(i as int)),
        decreases chunks@.len() - i,
    {
        let c = chunks[i];
        assert(chunks@[i as int].start <= chunks@[i as int].end <= data@.len());
        push_range(data, c.start, c.end, out);
        out.push(10u8);
        out.push(45u8);
        out.push(45u8);
        out.push(45u8);
        out.push(10u8);
        proof {
            let t = chunks@.take(i + 1);
            assert(t.drop_last() =~= chunks@.take(i as int));
            assert(t.last() == c);
            assert(out@ =~= old(out)@ + framed(data@, t));
        }
        i = i + 1;
    }
    assert(chunks@.take(i as int) =~= chunks@);
}

/// Appends to `output` the listing of `input` cut under the standard
/// configuration: every chunk's bytes followed by a `\n---\n` line. Empty
/// input has no chunks and appends nothing.
pub fn quickcdc(input: &[u8], output: &mut Vec<u8>)
    ensures
        final(output)@ == old(output)@ + framed(
            input@,
            chunks_of(input@, ChunkingConfig::standard_spec()),
        ),
{
    let cfg = ChunkingConfig::standard();
    let chunks = scan_chunks(input, &cfg);
    // The tiling facts are stated for data whose length fits in a usize.
    let n = input.len();
    proof {
        assert(input@.len() == n);
        crate::laws::lemma_exhaustive(input@, cfg);
    }
    write_listing(input, &chunks, output);
}

} // verus!
