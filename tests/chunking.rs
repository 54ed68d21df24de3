use quickcdc::{
    hash_window, is_boundary, next_chunk_len, pow31_mod, quickcdc, roll, rolling_hash, scan_chunks,
    write_listing, Chunk, ChunkError, ChunkingConfig,
};

fn sample(n: usize) -> Vec<u8> {
    let mut v = Vec::new();
    let mut x: u32 = 12345;
    for _ in 0..n {
        x = x.wrapping_mul(1103515245).wrapping_add(12345);
        v.push((x >> 16) as u8);
    }
    v
}

fn check_tiling(data: &[u8], cfg: &ChunkingConfig, chunks: &[Chunk]) {
    let mut joined = Vec::new();
    let mut pos = 0;
    for (k, c) in chunks.iter().enumerate() {
        assert_eq!(c.start, pos);
        assert!(c.start < c.end);
        assert!(c.len() <= cfg.max_chunk_size);
        if k + 1 < chunks.len() {
            assert!(c.len() >= cfg.min_chunk_size);
        }
        joined.extend_from_slice(&data[c.start..c.end]);
        pos = c.end;
    }
    assert_eq!(pos, data.len());
    assert_eq!(joined, data);
}

#[test]
fn test_rolling_hash() {
    let data = b"Hello, world!";
    let hash = rolling_hash(data);
    assert_eq!(hash, 2414922741);
}

#[test]
fn test_quickcdc() {
    let input_data = b"ishd dshvl ";
    let mut output = Vec::new();

    quickcdc(input_data, &mut output);

    let output_str = String::from_utf8_lossy(&output);
    let chunks: Vec<&str> = output_str.split("\n---\n").collect();

    assert!(chunks.len() > 1);

    let mut reconstructed = String::new();
    for chunk in &chunks {
        reconstructed.push_str(chunk);
    }
    assert_eq!(reconstructed.as_bytes(), input_data);
}

#[test]
fn hash_of_empty_and_short_inputs() {
    assert_eq!(rolling_hash(b""), 0);
    assert_eq!(rolling_hash(b"a"), 97);
    assert_eq!(rolling_hash(b"ab"), 97 * 31 + 98);
}

#[test]
fn hash_window_matches_whole_hash_of_slice() {
    let data = b"xxHello, world!yy";
    assert_eq!(hash_window(data, 2, 15), 2414922741);
    assert_eq!(hash_window(data, 3, 3), 0);
}

#[test]
fn boundary_test_uses_mask_bits() {
    assert!(is_boundary(0x100, 0xFF));
    assert!(!is_boundary(0x101, 0xFF));
    assert!(is_boundary(12345, 0));
}

#[test]
fn config_accepts_valid_sizes() {
    let cfg = ChunkingConfig::new(4, 10, 2, 7).unwrap();
    assert_eq!(cfg.min_chunk_size, 4);
    assert_eq!(cfg.max_chunk_size, 10);
    assert_eq!(cfg.window_size, 2);
    assert_eq!(cfg.boundary_mask, 7);
    assert!(ChunkingConfig::new(1, 1, 1, 0).is_ok());
}

#[test]
fn config_rejects_invalid_sizes() {
    assert_eq!(ChunkingConfig::new(5, 4, 2, 0), Err(ChunkError::InvalidConfig));
    assert_eq!(ChunkingConfig::new(4, 10, 5, 0), Err(ChunkError::InvalidConfig));
    assert_eq!(ChunkingConfig::new(4, 10, 0, 0), Err(ChunkError::InvalidConfig));
    assert_eq!(ChunkingConfig::new(0, 10, 0, 0), Err(ChunkError::InvalidConfig));
}

#[test]
fn empty_input_has_no_chunks() {
    let cfg = ChunkingConfig::new(4, 10, 2, 0).unwrap();
    assert!(scan_chunks(b"", &cfg).is_empty());
}

#[test]
fn forced_cut_at_max_when_no_candidate_matches() {
    // Only a zero digest passes a full mask, and no two-letter window here hashes to zero.
    let cfg = ChunkingConfig::new(4, 10, 2, u32::MAX).unwrap();
    let chunks = scan_chunks(b"abcdefghij", &cfg);
    assert_eq!(chunks, vec![Chunk { start: 0, end: 10 }]);
}

#[test]
fn first_candidate_wins_with_empty_mask() {
    let cfg = ChunkingConfig::new(4, 10, 2, 0).unwrap();
    let chunks = scan_chunks(b"abcdefghij", &cfg);
    assert_eq!(
        chunks,
        vec![
            Chunk { start: 0, end: 4 },
            Chunk { start: 4, end: 8 },
            Chunk { start: 8, end: 10 },
        ]
    );
}

#[test]
fn chosen_mask_pins_a_content_defined_cut() {
    // Candidates 4..9 test the windows "ef", "fg", "gh", "hi", "ij"; the one at 9
    // would run past the end. Their digests are 3233, 3265, 3297, 3329, 3361.
    let data = b"abcdefghij";
    assert_eq!(hash_window(data, 4, 6), 3233);
    assert_eq!(hash_window(data, 8, 10), 3361);
    // All of them are odd: with mask 1 no candidate passes, and the cut is forced at 10.
    let cfg = ChunkingConfig::new(4, 10, 2, 1).unwrap();
    assert_eq!(scan_chunks(data, &cfg), vec![Chunk { start: 0, end: 10 }]);
    // 3233 has bit 1 clear: with mask 2 the first candidate, offset 4, is the cut.
    // The next chunk tests only offset 8 ("ij", 3361, bit 1 clear), which cuts too.
    let cfg = ChunkingConfig::new(4, 10, 2, 2).unwrap();
    assert_eq!(
        scan_chunks(data, &cfg),
        vec![
            Chunk { start: 0, end: 4 },
            Chunk { start: 4, end: 8 },
            Chunk { start: 8, end: 10 },
        ]
    );
}

#[test]
fn short_tail_becomes_last_chunk() {
    let cfg = ChunkingConfig::new(4, 6, 2, u32::MAX).unwrap();
    let chunks = scan_chunks(b"abcdefgh", &cfg);
    assert_eq!(chunks, vec![Chunk { start: 0, end: 6 }, Chunk { start: 6, end: 8 }]);
}

#[test]
fn input_shorter_than_min_is_one_chunk() {
    let cfg = ChunkingConfig::new(8, 16, 4, 0).unwrap();
    assert_eq!(scan_chunks(b"abc", &cfg), vec![Chunk { start: 0, end: 3 }]);
}

#[test]
fn chunks_tile_and_rebuild_the_stream() {
    let data = sample(5000);
    let cfg = ChunkingConfig::new(16, 128, 8, 0x1F).unwrap();
    let chunks = scan_chunks(&data, &cfg);
    assert!(chunks.len() > 1);
    check_tiling(&data, &cfg, &chunks);
}

#[test]
fn scanning_twice_gives_the_same_chunks() {
    let data = sample(3000);
    let cfg = ChunkingConfig::new(16, 128, 8, 0x1F).unwrap();
    assert_eq!(scan_chunks(&data, &cfg), scan_chunks(&data, &cfg));
}

#[test]
fn edit_changes_only_nearby_chunks() {
    let cfg = ChunkingConfig::new(16, 128, 8, 0x1F).unwrap();
    let base = sample(6000);
    let mut edited = base.clone();
    // Insert ten bytes in the middle.
    let at = 3000;
    for k in 0..10u8 {
        edited.insert(at, k);
    }
    let a = scan_chunks(&base, &cfg);
    let b = scan_chunks(&edited, &cfg);
    // Chunks ending a window before the edit are unchanged.
    let before: Vec<&Chunk> = a.iter().filter(|c| c.end + 8 <= at).collect();
    assert!(!before.is_empty());
    for (k, c) in before.iter().enumerate() {
        assert_eq!(b[k], **c);
    }
    // Past some shared boundary after the edit, the rest coincides, shifted by ten.
    let tail_a: Vec<(usize, usize)> =
        a.iter().filter(|c| c.start > at + 500).map(|c| (c.start + 10, c.end + 10)).collect();
    let tail_b: Vec<(usize, usize)> =
        b.iter().filter(|c| c.start > at + 510).map(|c| (c.start, c.end)).collect();
    assert!(!tail_a.is_empty());
    let first = tail_a[0];
    let pos = tail_b.iter().position(|c| *c == first).unwrap();
    assert_eq!(&tail_b[pos..], &tail_a[..]);
}

#[test]
fn listing_frames_each_chunk() {
    let chunks = vec![Chunk { start: 0, end: 2 }, Chunk { start: 2, end: 5 }];
    let mut out = b">".to_vec();
    write_listing(b"hello", &chunks, &mut out);
    assert_eq!(out, b">he\n---\nllo\n---\n".to_vec());
}

#[test]
fn standard_config_values() {
    let cfg = ChunkingConfig::standard();
    assert_eq!(cfg, ChunkingConfig::new(32, 90, 32, 0xFF).unwrap());
}

#[test]
fn powers_of_31() {
    assert_eq!(pow31_mod(0), 1);
    assert_eq!(pow31_mod(1), 31);
    assert_eq!(pow31_mod(3), 29791);
    assert_eq!(pow31_mod(7), 31u32.wrapping_pow(7));
}

#[test]
fn rolling_matches_fresh_digest() {
    let data = sample(200);
    let w = 32;
    let factor = pow31_mod(w - 1);
    let mut digest = hash_window(&data, 0, w);
    for i in 0..(data.len() - w) {
        let next = roll(&data, i, w, digest, factor);
        assert_eq!(next, hash_window(&data, i + 1, i + w + 1));
        digest = next;
    }
}

#[test]
fn standard_listing_of_longer_text() {
    let text = b"Lorem ipsum dolor sit amet, consectetur adipiscing elit. Quisque vehicula. Lorem ipsum dolor sit amet, consectetur adipiscing elit.";
    let mut out = Vec::new();
    quickcdc(text, &mut out);
    let chunks = scan_chunks(text, &ChunkingConfig::standard());
    let mut expected = Vec::new();
    for c in &chunks {
        expected.extend_from_slice(&text[c.start..c.end]);
        expected.extend_from_slice(b"\n---\n");
    }
    assert_eq!(out, expected);
    check_tiling(text, &ChunkingConfig::standard(), &chunks);
}

fn stream_scan(data: &[u8], cfg: &ChunkingConfig, block: usize) -> Vec<Chunk> {
    let mut chunks = Vec::new();
    let mut pending: Vec<u8> = Vec::new();
    let mut fed = 0;
    let mut consumed = 0;
    loop {
        let at_end = fed == data.len();
        match next_chunk_len(&pending, cfg, at_end) {
            Some(n) => {
                chunks.push(Chunk { start: consumed, end: consumed + n });
                consumed += n;
                pending.drain(..n);
            }
            None if at_end => break,
            None => {
                let upto = (fed + block).min(data.len());
                pending.extend_from_slice(&data[fed..upto]);
                fed = upto;
            }
        }
    }
    chunks
}

#[test]
fn streaming_gives_the_same_chunks() {
    let data = sample(4000);
    let cfg = ChunkingConfig::new(16, 128, 8, 0x1F).unwrap();
    let whole = scan_chunks(&data, &cfg);
    for block in [1, 7, 64, 1000, 5000] {
        assert_eq!(stream_scan(&data, &cfg, block), whole);
    }
}

#[test]
fn streaming_waits_for_lookahead() {
    let cfg = ChunkingConfig::new(4, 10, 2, u32::MAX).unwrap();
    // Ten bytes of look-ahead are short of 10 + 2 - 1 = 11.
    assert_eq!(next_chunk_len(b"abcdefghij", &cfg, false), None);
    assert_eq!(next_chunk_len(b"abcdefghijk", &cfg, false), Some(10));
    assert_eq!(next_chunk_len(b"abcdefghij", &cfg, true), Some(10));
    assert_eq!(next_chunk_len(b"", &cfg, true), None);
}

#[test]
fn listing_of_empty_input_is_empty() {
    let mut out = b"x".to_vec();
    quickcdc(b"", &mut out);
    assert_eq!(out, b"x".to_vec());
}

#[test]
fn listing_of_short_input_is_one_framed_chunk() {
    let mut out = Vec::new();
    quickcdc(b"abcdefghij", &mut out);
    assert_eq!(out, b"abcdefghij\n---\n".to_vec());
    let mut out = Vec::new();
    quickcdc(b"ishd dshvl ", &mut out);
    assert_eq!(out, b"ishd dshvl \n---\n".to_vec());
}
