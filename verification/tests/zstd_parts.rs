use embark::fse::{build_table, ll_default, LL_LOG};
use embark::zstd::bitstream::BitWriter;
use embark::zstd::block::{write_all, write_header as block_header, MAX_BLOCK};
use embark::zstd::distribution::{describe, log2_fixed, normalize};
use embark::zstd::frame::{ceil_log2, encode, write_header};
use embark::zstd::huffman::{
    assign_codes, code_lengths, compress as huffman_compress, huffman, weight, write_direct,
    write_stream, write_tree, MIN_LITERALS,
};
use embark::zstd::weights::compress as weights_compress;
use embark::zstd::matcher::{common_prefix, hash, parse, Match, Params};
use embark::zstd::sequences::{code_of, ll_base_table, write_section, Coded, Tables};

fn pseudo_random(seed: u32, len: usize) -> Vec<u8> {
    let mut state = seed | 1;
    let mut out = Vec::with_capacity(len);
    for _ in 0..len {
        state ^= state << 13;
        state ^= state >> 17;
        state ^= state << 5;
        out.push((state & 0xff) as u8);
    }
    out
}

#[test]
fn bit_writer_packs_fields_low_bit_first() {
    let mut bw = BitWriter::new();
    bw.push(0b101, 3);
    bw.push(1, 1);
    bw.push(0xff, 8);
    assert_eq!(bw.finish_forward(), vec![0xfd, 0x0f]);

    let mut bw = BitWriter::new();
    bw.push(0b101, 3);
    bw.push(1, 1);
    bw.push(0xff, 8);
    // The end marker lands on bit 12.
    assert_eq!(bw.finish(), vec![0xfd, 0x1f]);
}

#[test]
fn an_empty_stream_is_just_its_marker() {
    assert_eq!(BitWriter::new().finish(), vec![0x01]);
    assert_eq!(BitWriter::new().finish_forward(), Vec::<u8>::new());
}

#[test]
fn a_wide_field_spans_bytes() {
    let mut bw = BitWriter::new();
    bw.push(0x0abc_def1, 28);
    assert_eq!(bw.finish_forward(), vec![0xf1, 0xde, 0xbc, 0x0a]);
}

#[test]
fn block_header_packs_size_type_and_last_flag() {
    let mut out = Vec::new();
    block_header(&mut out, 3, 0, true);
    assert_eq!(out, vec![25, 0, 0]);
    let mut out = Vec::new();
    block_header(&mut out, MAX_BLOCK, 1, false);
    // 131072 * 8 + 2 = 0x10_0002
    assert_eq!(out, vec![0x02, 0x00, 0x10]);
}

#[test]
fn blocks_are_cut_at_the_block_size_and_the_last_is_marked() {
    let data = pseudo_random(3, MAX_BLOCK + 5);
    let mut out = Vec::new();
    write_all(&mut out, &data);
    assert_eq!(out.len(), 3 + MAX_BLOCK + 3 + 5);
    assert_eq!(&out[..3], &[0x00, 0x00, 0x10]);
    assert_eq!(&out[3..3 + MAX_BLOCK], &data[..MAX_BLOCK]);
    let tail = 3 + MAX_BLOCK;
    assert_eq!(&out[tail..tail + 3], &[(5 << 3) | 1, 0, 0]);
}

#[test]
fn a_repeated_byte_is_one_rle_block() {
    let framed = encode(&[7u8; 10]);
    assert_eq!(framed, vec![0x28, 0xb5, 0x2f, 0xfd, 0x20, 10, 83, 0, 0, 7]);
}

#[test]
fn short_input_frames_are_exact() {
    assert_eq!(encode(b""), vec![0x28, 0xb5, 0x2f, 0xfd, 0x20, 0, 1, 0, 0]);
    assert_eq!(
        encode(b"abc"),
        vec![0x28, 0xb5, 0x2f, 0xfd, 0x20, 3, 25, 0, 0, b'a', b'b', b'c']
    );
}

#[test]
fn frame_header_widths_follow_the_length() {
    let mut out = Vec::new();
    assert_eq!(write_header(&mut out, 256), 1024);
    assert_eq!(out, vec![0x40, 0x00, 0x00, 0x00]);
    let mut out = Vec::new();
    assert_eq!(write_header(&mut out, 65792), 1 << 17);
    assert_eq!(out, vec![0x80, 7 << 3, 0x00, 0x01, 0x01, 0x00]);
    let mut out = Vec::new();
    assert_eq!(write_header(&mut out, 0), 1);
    assert_eq!(out, vec![0x20, 0]);
    assert_eq!(ceil_log2(1), 10);
    assert_eq!(ceil_log2(1025), 11);
    assert_eq!(ceil_log2(1 << 30), 30);
}

#[test]
fn frames_of_stored_blocks_decode_by_ruzstd() {
    for len in [0usize, 1, 5, 255, 256, 1000, MAX_BLOCK, MAX_BLOCK + 1, 300_000] {
        let mut data = pseudo_random(len as u32 + 1, len);
        if len > 10 {
            for b in &mut data[len / 2..] {
                *b = 0x42;
            }
        }
        let framed = encode(&data);
        let back = embark::zstd::decompress(&framed, data.len()).expect("ruzstd reads our frame");
        assert_eq!(back, data, "len {len}");
    }
    let ones = vec![9u8; 200_000];
    let framed = encode(&ones);
    assert!(framed.len() < 32);
    assert_eq!(embark::zstd::decompress(&framed, ones.len()).unwrap(), ones);
}

#[test]
fn normalize_rounds_to_nearest_and_fills_the_table() {
    assert_eq!(normalize(&[3, 1, 0, 4], 5), vec![12, 4, 0, 16]);
    assert_eq!(normalize(&[0, 5, 0, 1], 3), vec![0, 7, 0, 1]);
    let many = vec![1u32; 70_000];
    assert_eq!(normalize(&many, 5).iter().filter(|&&p| p >= 1).count(), 70_000);
    assert_eq!(normalize(&[1, 1, 1], 5), vec![11, 11, 10]);
    assert_eq!(normalize(&[1000, 1, 1, 1, 1], 5), vec![28, 1, 1, 1, 1]);
    assert_eq!(normalize(&[5, 0, 0, 0, 0, 1, 0, 2], 5), vec![20, 0, 0, 0, 0, 4, 0, 8]);
    for seed in 1..50u32 {
        let counts: Vec<u32> = pseudo_random(seed, 12).iter().map(|&b| u32::from(b % 7)).collect();
        if counts.iter().all(|&c| c == 0) {
            continue;
        }
        let n = normalize(&counts, 6);
        assert_eq!(n.iter().map(|&p| i32::from(p)).sum::<i32>(), 64);
        for (c, p) in counts.iter().zip(&n) {
            assert_eq!(*c > 0, *p > 0);
        }
    }
}

#[test]
fn normalized_counts_build_a_decoding_table() {
    let n = normalize(&[9, 3, 0, 1, 20, 0, 2], 6);
    let table = build_table(&n, 6);
    assert_eq!(table.len(), 64);
    for s in [0u16, 1, 3, 4, 6] {
        assert!(table.iter().any(|c| c.symbol == s), "symbol {s} has a cell");
    }
}

#[test]
fn table_descriptions_are_exact() {
    assert_eq!(describe(&vec![12, 4, 0, 16], 5), vec![0xd0, 0x2a, 0xf8]);
    assert_eq!(describe(&vec![11, 11, 10], 5), vec![0xc0, 0xd8, 0x03]);
    // A run of zeroes is written once with a repeat count.
    assert_eq!(describe(&vec![20, 0, 0, 0, 0, 4, 0, 8], 5), vec![0x50, 0x33, 0x15, 0x1e]);
}

#[test]
fn fixed_point_logarithm() {
    assert_eq!(log2_fixed(1), 0);
    assert_eq!(log2_fixed(3), 384);
    assert_eq!(log2_fixed(256), 2048);
    assert_eq!(log2_fixed(1000), 2548);
    assert_eq!(log2_fixed(u32::MAX), 8191);
    for k in 0..32 {
        assert_eq!(log2_fixed(1u32 << k), 256 * k);
    }
}

#[test]
fn sequence_codes_split_into_baseline_and_extra_bits() {
    let c = Coded::new(20, 40, 7);
    assert_eq!((c.ll_code, c.ll_extra), (18, 0));
    assert_eq!((c.ml_code, c.ml_extra), (34, 1));
    assert_eq!((c.of_code, c.of_extra), (2, 3));
    let c = Coded::new(131_071, 131_074, 1);
    assert_eq!((c.ll_code, c.ll_extra), (35, 65_535));
    assert_eq!((c.ml_code, c.ml_extra), (52, 65_535));
    assert_eq!((c.of_code, c.of_extra), (0, 0));
    assert_eq!(code_of(&ll_base_table(), 63), 24);
    assert_eq!(code_of(&ll_base_table(), 64), 25);
}

#[test]
fn sequences_section_header_counts_and_marks() {
    let tables = Tables::new();
    let mut out = Vec::new();
    write_section(&mut out, &Vec::new(), &tables);
    assert_eq!(out, vec![0]);

    let seqs = vec![Coded::new(3, 4, 5), Coded::new(0, 6, 9)];
    let mut out = Vec::new();
    write_section(&mut out, &seqs, &tables);
    assert_eq!(&out[..2], &[2, 0]);
    assert_ne!(*out.last().unwrap(), 0, "the stream ends in its marker");

    let many: Vec<Coded> = (0..200).map(|i| Coded::new(i % 20, 3 + i % 30, 1 + i)).collect();
    let mut out = Vec::new();
    write_section(&mut out, &many, &tables);
    assert_eq!(&out[..3], &[128, 200, 0]);
}

#[test]
fn predefined_literal_lengths_have_a_cell_each() {
    let table = build_table(&ll_default(), LL_LOG);
    for s in 0..36u16 {
        assert!(table.iter().any(|c| c.symbol == s));
    }
}

fn replay(input: &[u8], ms: &[Match]) -> Vec<u8> {
    let mut out: Vec<u8> = Vec::new();
    for m in ms {
        let at = out.len();
        out.extend_from_slice(&input[at..at + m.literal_len]);
        for _ in 0..m.match_len {
            let b = out[out.len() - m.offset];
            out.push(b);
        }
    }
    let at = out.len();
    out.extend_from_slice(&input[at..]);
    out
}

#[test]
fn a_parse_replays_to_its_input() {
    let text = b"embark embark embark, the quick brown fox; embark embark".repeat(20);
    let ms = parse(&text, 1 << 20, &Params::for_input(text.len()));
    assert!(!ms.is_empty());
    assert!(ms.iter().all(|m| m.match_len >= 4 && m.offset >= 1));
    assert_eq!(replay(&text, &ms), text);

    let runs = vec![0u8; 5000];
    let ms = parse(&runs, 1 << 20, &Params::for_input(runs.len()));
    assert_eq!(replay(&runs, &ms), runs);

    for seed in 1..20u32 {
        let mut data = pseudo_random(seed, 3000);
        for b in &mut data {
            *b &= 3;
        }
        let ms = parse(&data, 64, &Params::for_input(data.len()));
        assert!(ms.iter().all(|m| m.offset <= 64));
        assert_eq!(replay(&data, &ms), data);
    }
}

#[test]
fn short_inputs_parse_to_nothing() {
    assert!(parse(b"abc", 100, &Params::for_input(3)).is_empty());
    assert_eq!(Params::for_input(0).hash_bits, 10);
    assert_eq!(Params::for_input(1 << 30).hash_bits, 18);
}

#[test]
fn hashing_and_prefixes() {
    let data = b"abcdabcdabce";
    assert!(hash(data, 0, 12) < 1 << 12);
    assert_eq!(hash(data, 0, 12), hash(data, 4, 12));
    assert_eq!(common_prefix(data, 0, 4, 8), 7);
    assert_eq!(common_prefix(data, 0, 4, 3), 3);
}

#[test]
fn huffman_lengths_follow_the_weights() {
    let mut freqs = vec![0u32; 256];
    freqs[97] = 5;
    freqs[98] = 2;
    freqs[99] = 1;
    freqs[100] = 1;
    let lengths = huffman(&freqs);
    assert_eq!((lengths[97], lengths[98], lengths[99], lengths[100]), (1, 2, 3, 3));
    assert_eq!(lengths.iter().filter(|&&l| l > 0).count(), 4);

    let mut freqs = vec![0u32; 256];
    for i in 0..10 {
        freqs[i] = i as u32 + 1;
    }
    let lengths = huffman(&freqs);
    assert_eq!(&lengths[..10], &[5, 5, 4, 4, 4, 3, 3, 3, 3, 2]);
    // A complete code: the Kraft sum is exactly one.
    let kraft: f64 = lengths.iter().filter(|&&l| l > 0).map(|&l| 0.5f64.powi(l as i32)).sum();
    assert!((kraft - 1.0).abs() < 1e-12);
}

#[test]
fn huffman_edge_cases() {
    assert!(huffman(&vec![0u32; 256]).iter().all(|&l| l == 0));
    let mut one = vec![0u32; 256];
    one[200] = 9;
    let lengths = huffman(&one);
    assert_eq!(lengths[200], 1);
    assert_eq!(lengths.iter().filter(|&&l| l > 0).count(), 1);
    let all = vec![1u32; 256];
    assert!(huffman(&all).iter().all(|&l| l == 8));
}

#[test]
fn canonical_codes_count_up_from_the_longest() {
    let mut lengths = vec![0u8; 256];
    lengths[97] = 1;
    lengths[98] = 2;
    lengths[99] = 3;
    lengths[100] = 3;
    let codes = assign_codes(&lengths);
    assert_eq!((codes[97], codes[98], codes[99], codes[100]), (1, 1, 0, 1));
    let mut lengths = vec![0u8; 256];
    lengths[..10].copy_from_slice(&[5, 5, 4, 4, 4, 3, 3, 3, 3, 2]);
    let codes = assign_codes(&lengths);
    assert_eq!(&codes[..10], &[0, 1, 1, 2, 3, 2, 3, 4, 5, 3]);
}

#[test]
fn huffman_streams_and_direct_headers() {
    let mut lengths = vec![0u8; 256];
    lengths[97] = 1;
    lengths[98] = 2;
    lengths[99] = 3;
    lengths[100] = 3;
    let codes = assign_codes(&lengths);
    let mut out = vec![0xaa];
    embark::zstd::huffman::write_stream(&mut out, b"abacad", &lengths, &codes);
    assert_eq!(out, vec![0xaa, 0x89, 0x0d]);

    assert_eq!(weight(0, 11), 0);
    assert_eq!(weight(1, 11), 11);
    assert_eq!(weight(11, 11), 1);
    let mut out = Vec::new();
    write_direct(&mut out, &[3, 2, 1]);
    assert_eq!(out, vec![130, 0x32, 0x10]);
}

#[test]
fn weight_headers_need_two_distinct_weights() {
    assert!(weights_compress(&[3]).is_none());
    assert!(weights_compress(&[5; 40]).is_none());
    assert!(weights_compress(&[1, 2, 12, 3]).is_none());
    let series: Vec<u8> = (0..200).map(|i| [1u8, 2, 2, 3, 3, 3, 3, 0][i % 8]).collect();
    let body = weights_compress(&series).expect("a skewed series compresses");
    assert!(body.len() <= 127);
    // The table description opens with the accuracy log less five.
    assert_eq!(body[0] & 0x0f, 1);
    assert_ne!(*body.last().unwrap(), 0, "the stream ends in its marker");
}

#[test]
fn tree_descriptions_pick_the_smaller_form() {
    // Few weights: the direct form, which the compressed one cannot beat.
    let mut out = Vec::new();
    assert!(write_tree(&mut out, &[3, 2, 1]).is_some());
    assert_eq!(out, vec![130, 0x32, 0x10]);

    // More than 128 weights: only the compressed form can carry them.
    let series: Vec<u8> = (0..200).map(|i| [1u8, 2, 2, 3, 3, 3, 3, 0][i % 8]).collect();
    let mut out = Vec::new();
    assert!(write_tree(&mut out, &series).is_some());
    assert!(out[0] < 128);
    assert_eq!(out.len(), 1 + out[0] as usize);

    // More than 128 weights that cannot be compressed: no description.
    let mut out = vec![9];
    assert!(write_tree(&mut out, &[4u8; 200]).is_none());
    assert_eq!(out, vec![9]);
}

fn kraft_at_eleven(lengths: &[u8]) -> u64 {
    lengths.iter().filter(|&&l| l > 0).map(|&l| 1u64 << (11 - l)).sum()
}

#[test]
fn code_lengths_are_capped_at_eleven_bits() {
    // Fibonacci frequencies drive an unconstrained Huffman tree far past
    // eleven levels; the lengths must be flattened back into the limit.
    let mut counts = vec![0u32; 256];
    let (mut a, mut b) = (1u32, 1u32);
    for s in 0..30 {
        counts[s * 3] = a;
        let c = a + b;
        a = b;
        b = c;
    }
    let lengths = code_lengths(&counts);
    assert_eq!(lengths.len(), 256);
    for s in 0..256 {
        assert_eq!(lengths[s] > 0, counts[s] > 0, "symbol {s}");
        assert!(lengths[s] <= 11, "symbol {s} got {}", lengths[s]);
    }
    assert_eq!(kraft_at_eleven(&lengths), 1 << 11);
    // The rarest symbols get the longest codes.
    assert!(lengths[0] >= lengths[87]);
}

#[test]
fn code_lengths_of_two_symbols_are_one_bit() {
    let mut counts = vec![0u32; 256];
    counts[7] = 1000;
    counts[200] = 1;
    let lengths = code_lengths(&counts);
    assert_eq!(lengths[7], 1);
    assert_eq!(lengths[200], 1);
    assert_eq!(lengths.iter().filter(|&&l| l > 0).count(), 2);
}

fn decode_stream(stream: &[u8], lengths: &[u8], codes: &[u16], count: usize) -> Vec<u8> {
    let mut bits: Vec<u8> = Vec::new();
    for byte in stream {
        for k in 0..8 {
            bits.push((byte >> k) & 1);
        }
    }
    let mut top = bits.len();
    while bits[top - 1] == 0 {
        top -= 1;
    }
    // `top - 1` is the marker; read downwards from just below it.
    let mut pos = top - 1;
    let mut out = Vec::new();
    while out.len() < count {
        let mut code: u32 = 0;
        let mut len: u8 = 0;
        loop {
            pos -= 1;
            code = (code << 1) | bits[pos] as u32;
            len += 1;
            let hit = (0..256).find(|&s| lengths[s] == len && codes[s] as u32 == code);
            if let Some(s) = hit {
                out.push(s as u8);
                break;
            }
            assert!(len <= 11, "no code matched");
        }
    }
    assert_eq!(pos, 0, "stream has bits left over");
    out
}

#[test]
fn huffman_literals_decode_back() {
    let data: Vec<u8> = pseudo_random(99, 1000).iter().map(|b| b >> 4 >> (b % 3)).collect();
    let out = huffman_compress(&data).expect("skewed literals are coded");
    let mut counts = vec![0u32; 256];
    for &b in &data {
        counts[b as usize] += 1;
    }
    let lengths = code_lengths(&counts);
    let codes = assign_codes(&lengths);
    let head = out[0] as usize;
    let tree_len = if head < 128 { 1 + head } else { 1 + (head - 127 + 1) / 2 };
    let jump = &out[tree_len..tree_len + 6];
    let s0 = jump[0] as usize | (jump[1] as usize) << 8;
    let s1 = jump[2] as usize | (jump[3] as usize) << 8;
    let s2 = jump[4] as usize | (jump[5] as usize) << 8;
    let start = tree_len + 6;
    let streams = [
        &out[start..start + s0],
        &out[start + s0..start + s0 + s1],
        &out[start + s0 + s1..start + s0 + s1 + s2],
        &out[start + s0 + s1 + s2..],
    ];
    let quarter = (data.len() + 3) / 4;
    let mut back = Vec::new();
    for (k, stream) in streams.iter().enumerate() {
        let size = quarter.min(data.len() - (k * quarter).min(data.len()));
        back.extend(decode_stream(stream, &lengths, &codes, size));
    }
    assert_eq!(back, data);
    assert!(out.len() < data.len());
}

#[test]
fn huffman_literals_need_enough_varied_input() {
    assert_eq!(MIN_LITERALS, 256);
    assert!(huffman_compress(&pseudo_random(3, 255)).is_none());
    assert!(huffman_compress(&vec![9u8; 4000]).is_none());
    let low: Vec<u8> = pseudo_random(3, 256).iter().map(|b| b >> 5).collect();
    assert!(huffman_compress(&low).is_some());
}

fn block_prices() -> embark::zstd::optimal::Prices {
    embark::zstd::optimal::Prices {
        literal: [8 * 256; 256],
        literal_len: [256; 36],
        match_len: [3 * 256; 53],
        offset: [5 * 256; 32],
    }
}

fn replay_block(input: &[u8], start: usize, end: usize, ms: &[Match]) -> Vec<u8> {
    let mut out = input[..start].to_vec();
    let mut at = start;
    for m in ms {
        out.extend_from_slice(&input[at..at + m.literal_len]);
        at += m.literal_len;
        for _ in 0..m.match_len {
            let b = out[out.len() - m.offset];
            out.push(b);
        }
        at += m.match_len;
    }
    out.extend_from_slice(&input[at..end]);
    out
}

fn brute_candidates(input: &[u8], start: usize, end: usize) -> embark::zstd::optimal::Candidates {
    let mut items = Vec::new();
    let mut starts = Vec::new();
    let mut searched = Vec::new();
    for i in 0..end - start {
        starts.push(items.len() as u32);
        searched.push(true);
        let pos = start + i;
        let mut best = 0usize;
        for off in 1..=pos.min(64) {
            let mut len = 0;
            while pos + len < end && len < 65536 && input[pos + len] == input[pos - off + len] {
                len += 1;
            }
            if len >= 4 && len > best {
                best = len;
                items.push((len as u32, off as u32));
            }
        }
    }
    starts.push(items.len() as u32);
    embark::zstd::optimal::Candidates { items, starts, searched }
}

#[test]
fn priced_parse_reads_back_as_the_block() {
    let text = b"the quick brown fox jumps over the lazy dog; the quick brown fox jumps again".repeat(5);
    for (start, end) in [(0usize, text.len()), (40, 300), (100, 100)] {
        let cands = brute_candidates(&text, start, end);
        let ms = embark::zstd::optimal::parse(&text, start, end, &cands, [1, 4, 8], &block_prices());
        assert_eq!(replay_block(&text, start, end, &ms), text[..end].to_vec());
        if end - start > 100 {
            assert!(!ms.is_empty(), "a repetitive block takes matches");
        }
    }
}

#[test]
fn priced_parse_of_unmatched_bytes_is_all_literals() {
    let data = pseudo_random(5, 500);
    let cands = embark::zstd::optimal::Candidates {
        items: Vec::new(),
        starts: vec![0; 501],
        searched: vec![false; 500],
    };
    let ms = embark::zstd::optimal::parse(&data, 0, 500, &cands, [1, 4, 8], &block_prices());
    assert!(ms.is_empty());
}

#[test]
fn seeded_prices_follow_counts_and_predefined_tables() {
    let block = vec![7u8; 1000];
    let p = embark::zstd::optimal::Prices::seed(&block);
    // The only byte seen costs the one-bit floor; an unseen byte costs
    // log2(1000) plus the two-bit penalty, clamped to eleven bits.
    assert_eq!(p.literal[7], 256);
    assert_eq!(p.literal[8], (embark::zstd::distribution::log2_fixed(1000) + 512).min(11 * 256));
    // Literal-length code 0 holds 4 of 64 points: 6 - 2 = 4 bits.
    assert_eq!(p.literal_len[0], 4 * 256);
    // Offset code 31 is not in the predefined table: one point of 32.
    assert_eq!(p.offset[31], 5 * 256 + 31 * 256);
    assert_eq!(embark::zstd::optimal::entropy(0, 0), 2048);
    assert_eq!(embark::zstd::optimal::entropy(4, 16), 2 * 256);
}

#[test]
fn refitted_prices_follow_the_parse() {
    let block = b"abcabcabcabc";
    let ms = vec![Match { literal_len: 3, match_len: 9, offset: 3 }];
    let p = embark::zstd::optimal::Prices::fit(block, &ms, [1, 4, 8]);
    // Three literals, one of each: log2(3) in 1/256ths.
    assert_eq!(p.literal[b'a' as usize], 384);
    // An unseen byte costs the rarest plus two bits.
    assert_eq!(p.literal[b'z' as usize], 384 + 512);
    // One sequence: its codes cost the floor of an eighth of a bit.
    assert_eq!(p.literal_len[3], 32);
    assert_eq!(p.match_len[6], 32);
    // Offset 3 after literals is a new offset, value 6, code 2.
    assert_eq!(p.offset[2], 32 + 2 * 256);
    assert_eq!(p.literal_len[0], 512);
}

#[test]
fn repricing_then_parsing_again_still_reads_back() {
    let text = b"abracadabra, abracadabra, abracadabra and more abracadabra".repeat(3);
    let cands = brute_candidates(&text, 0, text.len());
    let first = embark::zstd::optimal::Prices::seed(&text);
    let ms = embark::zstd::optimal::parse(&text, 0, text.len(), &cands, [1, 4, 8], &first);
    let again = embark::zstd::optimal::Prices::fit(&text, &ms, [1, 4, 8]);
    let ms2 = embark::zstd::optimal::parse(&text, 0, text.len(), &cands, [1, 4, 8], &again);
    assert_eq!(replay_block(&text, 0, text.len(), &ms2), text.to_vec());
}
