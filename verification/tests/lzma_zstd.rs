use embark::lzma::HEADER_LEN;
use embark::Error;

fn lzma_rt(data: &[u8]) {
    let c = embark::lzma::compress(data);
    let back = embark::lzma::decompress(&c, data.len()).expect("decompress");
    assert_eq!(back, data, "roundtrip mismatch (len {})", data.len());
}

fn zstd_roundtrip(data: &[u8]) -> Vec<u8> {
    let packed = embark::zstd::compress(data);
    assert_eq!(&packed[..4], &[0x28, 0xb5, 0x2f, 0xfd], "frame magic");
    let back = embark::zstd::decompress(&packed, data.len()).expect("our own decoder must accept the frame");
    assert_eq!(back, data);
    packed
}

fn pseudo_random(seed: u32, len: usize) -> Vec<u8> {
    let mut state = seed | 1;
    let mut out = Vec::with_capacity(len);
    for _ in 0..len {
        state ^= state << 13;
        state ^= state >> 17;
        state ^= state << 5;
        out.push((state & 0xff) as u8);
    }
    out
}

fn xorshift_bytes(len: usize) -> Vec<u8> {
    let mut state: u32 = 0x1234_5678;
    let mut data = Vec::with_capacity(len);
    for _ in 0..len {
        state ^= state << 13;
        state ^= state >> 17;
        state ^= state << 5;
        data.push((state & 0xff) as u8);
    }
    data
}

#[test]
fn mod_roundtrip_empty() {
    lzma_rt(b"");
}

#[test]
fn roundtrip_empty() {
    let c = embark::zstd::compress(b"");
    assert_eq!(embark::zstd::decompress(&c, 0).unwrap(), b"");
}

#[test]
fn mod_roundtrip_single_byte() {
    lzma_rt(b"Q");
}

#[test]
fn roundtrip_single_byte() {
    let data = b"x";
    let c = embark::zstd::compress(data);
    assert_eq!(embark::zstd::decompress(&c, data.len()).unwrap(), data);
}

#[test]
fn mod_roundtrip_repetitive() {
    lzma_rt(&[0u8; 1000]);
    lzma_rt(&b"abcabcabc".repeat(200));
    lzma_rt(&b"The quick brown fox jumps over the lazy dog. ".repeat(50));
}

#[test]
fn roundtrip_repetitive() {
    let data = b"ababababababababababababababababab".repeat(50);
    let c = embark::zstd::compress(&data);
    assert!(c.len() < data.len(), "repetitive data should shrink");
    assert_eq!(embark::zstd::decompress(&c, data.len()).unwrap(), data);
}

#[test]
fn roundtrip_all_bytes() {
    let data: Vec<u8> = (0u8..=255).collect();
    lzma_rt(&data);
}

#[test]
fn roundtrip_incompressible() {
    let mut x: u32 = 0x1234_5678;
    let mut data = vec![0u8; 4096];
    for b in data.iter_mut() {
        x ^= x << 13;
        x ^= x >> 17;
        x ^= x << 5;
        *b = (x & 0xff) as u8;
    }
    lzma_rt(&data);
}

#[test]
fn roundtrip_text_kb() {
    let mut s = Vec::new();
    for i in 0u32..300 {
        s.extend_from_slice(b"line ");
        let mut digits = [0u8; 10];
        let mut d = 9;
        let mut v = i;
        loop {
            digits[d] = b'0' + (v % 10) as u8;
            v /= 10;
            if v == 0 {
                break;
            }
            d -= 1;
        }
        s.extend_from_slice(&digits[d..]);
        s.extend_from_slice(b": the lazy dog sleeps while the quick fox runs.\n");
    }
    lzma_rt(&s);
}

#[test]
fn too_short_header_is_truncated() {
    assert!(matches!(embark::lzma::decompress(&[0u8; 5], 0), Err(Error::Truncated)));
}

#[test]
fn bad_props_is_corrupt() {
    let mut c = embark::lzma::compress(b"hello world");
    c[0] = 0xFF;
    assert!(matches!(embark::lzma::decompress(&c, 11), Err(Error::Corrupt)));
}

#[test]
fn wrong_size_field_is_corrupt() {
    let mut c = embark::lzma::compress(b"hello world");
    c[5] ^= 0x01;
    assert!(matches!(embark::lzma::decompress(&c, 11), Err(Error::Corrupt)));
}

#[test]
fn truncated_body_errs() {
    let c = embark::lzma::compress(&b"The quick brown fox. ".repeat(40));
    let orig = b"The quick brown fox. ".repeat(40).len();
    let cut = HEADER_LEN + (c.len() - HEADER_LEN) / 2;
    let _ = embark::lzma::decompress(&c[..cut], orig);
}

#[test]
fn mod_hostile_orig_len_does_not_over_allocate() {
    let hostile_orig_len: usize = 1 << 40;
    let mut input = Vec::new();
    input.push(0x5D);
    input.extend_from_slice(&0u32.to_le_bytes());
    input.extend_from_slice(&(hostile_orig_len as u64).to_le_bytes());
    input.extend_from_slice(&[0u8, 0, 0, 0, 0]);
    assert!(embark::lzma::decompress(&input, hostile_orig_len).is_err());
}

#[test]
fn hostile_orig_len_does_not_over_allocate() {
    let hostile_orig_len: usize = 1 << 40;
    let c = embark::zstd::compress(b"tiny");
    assert!(embark::zstd::decompress(&c, hostile_orig_len).is_err());
}

#[test]
fn garbage_does_not_panic() {
    let mut x: u32 = 0xDEAD_BEEF;
    let mut junk = vec![0u8; 200];
    for b in junk.iter_mut() {
        x ^= x << 13;
        x ^= x >> 17;
        x ^= x << 5;
        *b = (x & 0xff) as u8;
    }
    let _ = embark::lzma::decompress(&junk, 500);
}

#[test]
fn lzma_header_records_the_length() {
    let c = embark::lzma::compress(b"hello world");
    assert_eq!(c[0], 0x5D);
    assert_eq!(&c[5..13], &11u64.to_le_bytes());
}

#[test]
fn zstd_roundtrip_empty() {
    let c = embark::zstd::compress(b"");
    assert_eq!(embark::zstd::decompress(&c, 0).unwrap(), b"");
}

#[test]
fn zstd_roundtrip_single_byte() {
    let data = b"x";
    let c = embark::zstd::compress(data);
    assert_eq!(embark::zstd::decompress(&c, data.len()).unwrap(), data);
}

#[test]
fn zstd_roundtrip_repetitive() {
    let data = b"ababababababababababababababababab".repeat(50);
    let c = embark::zstd::compress(&data);
    assert!(c.len() < data.len(), "repetitive data should shrink");
    assert_eq!(embark::zstd::decompress(&c, data.len()).unwrap(), data);
}

#[test]
fn zstd_roundtrip_incompressible_random() {
    let data = xorshift_bytes(2048);
    let c = embark::zstd::compress(&data);
    assert_eq!(embark::zstd::decompress(&c, data.len()).unwrap(), data);
}

#[test]
fn mod_roundtrip_incompressible_random() {
    let data = xorshift_bytes(2048);
    let c = embark::zstd::compress(&data);
    assert_eq!(embark::zstd::decompress(&c, data.len()).unwrap(), data);
}

#[test]
fn zstd_roundtrip_all_byte_values() {
    let data: Vec<u8> = (0..=255u8).collect();
    let c = embark::zstd::compress(&data);
    assert_eq!(embark::zstd::decompress(&c, data.len()).unwrap(), data);
}

#[test]
fn mod_roundtrip_all_byte_values() {
    let data: Vec<u8> = (0..=255u8).collect();
    let c = embark::zstd::compress(&data);
    assert_eq!(embark::zstd::decompress(&c, data.len()).unwrap(), data);
}

fn pangrams() -> Vec<u8> {
    b"The quick brown fox jumps over the lazy dog. \
        Pack my box with five dozen liquor jugs. \
        How vexingly quick daft zebras jump! \
        The five boxing wizards jump quickly. \
        Sphinx of black quartz, judge my vow. \
        Waltz, bad nymph, for quick jigs vex."
        .repeat(4)
}

#[test]
fn zstd_roundtrip_text() {
    let data = pangrams();
    let c = embark::zstd::compress(&data);
    assert_eq!(embark::zstd::decompress(&c, data.len()).unwrap(), data);
}

#[test]
fn mod_roundtrip_text() {
    let data = pangrams();
    let c = embark::zstd::compress(&data);
    assert_eq!(embark::zstd::decompress(&c, data.len()).unwrap(), data);
}

#[test]
fn zstd_garbage_is_corrupt() {
    assert!(embark::zstd::decompress(&[0xff, 0xff, 0xff, 0xff], 10).is_err());
}

#[test]
fn mod_garbage_is_corrupt() {
    assert!(embark::zstd::decompress(&[0xff, 0xff, 0xff, 0xff], 10).is_err());
}

#[test]
fn roundtrip_across_segment_boundaries() {
    let unit = b"embark: a line repeated until the offsets are all repeats.\n";
    let data: Vec<u8> = unit.iter().copied().cycle().take(5 * (1 << 20) + 7).collect();
    let c = embark::zstd::compress(&data);
    assert_eq!(embark::zstd::decompress(&c, data.len()).unwrap(), data);
}

#[test]
fn roundtrip_json_like() {
    let mut data = String::from("[");
    for i in 0..2000 {
        data.push_str("{\"id\":");
        data.push_str(&format!("{i}"));
        data.push_str(",\"name\":\"item\",\"tags\":[\"a\",\"b\"],\"ok\":true},");
    }
    data.push(']');
    let bytes = data.into_bytes();
    let packed = zstd_roundtrip(&bytes);
    assert!(packed.len() * 8 < bytes.len(), "structured text should shrink hard");
}

#[test]
fn roundtrip_sizes_around_the_block_boundary() {
    for len in [131_071usize, 131_072, 131_073, 131_074, 262_144, 262_145] {
        let mut data = pseudo_random(len as u32, len);
        for i in len / 2..len {
            data[i] = data[i % 97];
        }
        zstd_roundtrip(&data);
    }
}

#[test]
fn roundtrip_sizes_around_the_window_boundary() {
    for len in [1usize, 2, 3, 4, 5, 255, 256, 257, 1023, 1024, 1025, 65_791, 65_792] {
        zstd_roundtrip(&pseudo_random(len as u32, len));
        zstd_roundtrip(&b"ab".repeat(len.div_ceil(2))[..len]);
    }
}

#[test]
fn incompressible_input_barely_grows() {
    let data = pseudo_random(7, 300_000);
    let packed = embark::zstd::compress(&data);
    assert!(packed.len() < data.len() + 32, "grew to {}", packed.len());
    assert_eq!(embark::zstd::decompress(&packed, data.len()).unwrap(), data);
}

#[test]
fn fuzz_roundtrip_over_random_shapes() {
    let mut seed = 0x9e37_79b9u32;
    for round in 0..400u32 {
        seed ^= seed << 13;
        seed ^= seed >> 17;
        seed ^= seed << 5;
        let len = (seed as usize) % 9_000;
        let mut data = pseudo_random(seed, len);
        match round % 4 {
            0 => data.iter_mut().for_each(|b| *b &= 0x03),
            1 if len > 8 => {
                let head = data[..len / 8].to_vec();
                data.truncate(len / 8);
                while data.len() < len {
                    data.extend_from_slice(&head);
                }
                data.truncate(len);
            }
            2 => data.iter_mut().for_each(|b| *b = 0x5a),
            _ => {}
        }
        let packed = embark::zstd::compress(&data);
        assert_eq!(
            embark::zstd::decompress(&packed, data.len()).unwrap(),
            data,
            "round {round}, len {len}"
        );
    }
}

#[test]
fn truncated_frames_are_rejected_not_panics() {
    let data = b"the quick brown fox jumps over the lazy dog".repeat(64);
    let packed = embark::zstd::compress(&data);
    for cut in 0..packed.len() {
        if let Ok(back) = embark::zstd::decompress(&packed[..cut], data.len()) {
            assert_eq!(back, data);
        }
    }
}

#[test]
fn mod_roundtrip_large_real_data() {
    let data = b"the quick brown fox jumps over the lazy dog ".repeat(200_000);
    let c = embark::zstd::compress(&data);
    assert_eq!(embark::zstd::decompress(&c, data.len()).unwrap(), data);
}


#[test]
fn dictionary_is_the_next_power_of_two() {
    assert_eq!(embark::lzma::encoder::dict_size(0), 4096);
    assert_eq!(embark::lzma::encoder::dict_size(4096), 4096);
    assert_eq!(embark::lzma::encoder::dict_size(5000), 8192);
    assert_eq!(embark::lzma::encoder::dict_size(1 << 28), 1 << 28);
    assert_eq!(embark::lzma::encoder::dict_size((1 << 28) + 1), 1 << 29);
}
