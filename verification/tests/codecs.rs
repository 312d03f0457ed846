use embark::best::compress_best;
use embark::codec::{Codec, Deflate, Store};
use embark::dispatch::{compress, decompress};
use embark::{CodecId, Error};

#[test]
fn store_roundtrip() {
    let data = b"identity bytes";
    let stored = compress(CodecId::Store, data);
    assert_eq!(stored, data);
    let back = decompress(CodecId::Store, &stored, data.len()).unwrap();
    assert_eq!(back, data);
}

#[test]
fn store_roundtrips_via_handle() {
    let data = b"handle roundtrip via Store";
    let c = Store.compress(data);
    assert_eq!(Store.decompress(&c, data.len()).unwrap(), data);
    assert_eq!(Store::ID, CodecId::Store);
}

#[test]
fn deflate_roundtrips_via_handle() {
    let data = b"handle roundtrip via Deflate handle roundtrip via Deflate".repeat(4);
    let c = Deflate.compress(&data);
    assert_eq!(Deflate.decompress(&c, data.len()).unwrap(), data);
    assert_eq!(Deflate::ID, CodecId::Deflate);
}

#[test]
fn deflate_roundtrip_repetitive() {
    let data = b"ababababababababababababababababab".repeat(50);
    let c = embark::deflate::compress(&data);
    assert!(c.len() < data.len(), "repetitive data should shrink");
    assert_eq!(embark::deflate::decompress(&c, data.len()).unwrap(), data);
}

#[test]
fn deflate_roundtrip_empty() {
    let c = embark::deflate::compress(b"");
    assert_eq!(embark::deflate::decompress(&c, 0).unwrap(), b"");
}

#[test]
fn deflate_garbage_is_corrupt() {
    assert!(embark::deflate::decompress(&[0xff, 0xff, 0xff, 0xff], 10).is_err());
}

#[test]
fn lz4_roundtrip() {
    let data = b"lz4 lz4 lz4 lz4 lz4 lz4 lz4 lz4 lz4 lz4".repeat(20);
    let c = embark::lz4::compress(&data);
    assert_eq!(embark::lz4::decompress(&c, data.len()).unwrap(), data);
}

#[test]
fn lz4_roundtrip_empty() {
    let c = embark::lz4::compress(b"");
    assert_eq!(embark::lz4::decompress(&c, 0).unwrap(), b"");
}

#[test]
fn wrong_len_is_corrupt() {
    let c = embark::lz4::compress(b"hello world");
    assert_eq!(embark::lz4::decompress(&c, 3), Err(Error::Corrupt));
    assert_eq!(embark::lz4::decompress(&c, 12), Err(Error::Corrupt));
    assert_eq!(embark::lz4::decompress(&c, 100), Err(Error::Corrupt));
}

#[test]
fn lz4_hostile_orig_len_does_not_over_allocate() {
    let hostile_orig_len = 1usize << 40;
    assert!(embark::lz4::decompress(&[0u8, 0, 0, 0], hostile_orig_len).is_err());
}

#[test]
fn lz4_roundtrip_large_real_data() {
    let data = b"the quick brown fox jumps over the lazy dog ".repeat(200_000);
    let c = embark::lz4::compress(&data);
    assert_eq!(embark::lz4::decompress(&c, data.len()).unwrap(), data);
}

#[test]
fn lz4_ceiling_saturates() {
    assert_eq!(embark::lz4::expansion_ceiling(4), 4 * 255 + 64);
    assert_eq!(embark::lz4::expansion_ceiling(usize::MAX), usize::MAX);
}

fn snappy_rt(data: &[u8]) {
    let c = embark::snappy::compress(data);
    assert_eq!(embark::snappy::decompress(&c, data.len()).unwrap(), data, "roundtrip mismatch");
}

#[test]
fn roundtrip_cases() {
    snappy_rt(b"");
    snappy_rt(b"a");
    snappy_rt(b"hello hello hello hello world world world");
    snappy_rt(&b"The quick brown fox jumps over the lazy dog. ".repeat(30));
    snappy_rt(&(0u8..=255).collect::<Vec<u8>>());
}

#[test]
fn preamble_encodes_length() {
    let c = embark::snappy::compress(&[7u8; 300]);
    assert_eq!(&c[..2], &[0xAC, 0x02]);
}

#[test]
fn snappy_truncated_is_error() {
    assert!(embark::snappy::decompress(&[0x04, 0xff], 4).is_err());
}

#[test]
fn overgrowth_is_rejected() {
    let body: &[u8] = &[0x04, 0x0C, b'A', b'A', b'A', b'A', 0xFE, 0x01, 0x00];
    assert!(embark::snappy::decompress(body, 4).is_err());
}

#[test]
fn all_codecs_roundtrip() {
    let corpus: &[&[u8]] = &[
        b"",
        b"x",
        b"The quick brown fox jumps over the lazy dog.",
        &[0u8; 1000],
    ];
    let codecs = [
        CodecId::Store,
        CodecId::Deflate,
        CodecId::Lz4,
        CodecId::Snappy,
        CodecId::Zstd,
    ];
    for &data in corpus {
        for &id in &codecs {
            let c = compress(id, data);
            let back = decompress(id, &c, data.len()).unwrap();
            assert_eq!(back, data, "codec {:?} failed", id);
        }
    }
}

#[test]
fn best_never_larger_than_store() {
    let data = b"aaaaaaaaaaaaaaaaaaaaaaaaaaaaaaaaaaaaaaaaaaaaaaaa";
    let (id, bytes) = compress_best(data);
    assert!(bytes.len() <= data.len());
    assert_eq!(decompress(id, &bytes, data.len()).unwrap(), data);
}

#[test]
fn decoding_with_each_codec_roundtrips_lzma_too() {
    let data = b"The quick brown fox jumps over the lazy dog. ".repeat(10);
    let c = compress(CodecId::Lzma, &data);
    assert_eq!(decompress(CodecId::Lzma, &c, data.len()).unwrap(), data);
}

#[test]
fn garbage_claiming_no_bytes_is_corrupt() {
    let garbage = [0xffu8, 0xff, 0xff, 0xff];
    assert_eq!(decompress(CodecId::Deflate, &garbage, 0), Err(Error::Corrupt));
    assert_eq!(decompress(CodecId::Zstd, &garbage, 0), Err(Error::Corrupt));
    let empty_deflate = compress(CodecId::Deflate, b"");
    assert_eq!(decompress(CodecId::Deflate, &empty_deflate, 0).unwrap(), b"");
    let empty_zstd = compress(CodecId::Zstd, b"");
    assert_eq!(decompress(CodecId::Zstd, &empty_zstd, 0).unwrap(), b"");
}

#[test]
fn wrong_claimed_lengths_are_refused() {
    let data = b"hello world";
    for id in [CodecId::Store, CodecId::Deflate, CodecId::Lz4, CodecId::Snappy, CodecId::Zstd, CodecId::Lzma] {
        let c = compress(id, data);
        for claim in [3usize, 12, 100] {
            assert!(decompress(id, &c, claim).is_err(), "{id:?} accepted a claim of {claim}");
        }
        assert_eq!(decompress(id, &c, data.len()).unwrap(), data);
    }
}
