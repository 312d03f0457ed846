use embark::entry::{read_header, write_entry};
use embark::varint::{read_varint, write_varint};
use embark::{CodecId, CryptoId, Error};

#[test]
fn roundtrip_boundaries() {
    for v in [0u64, 1, 127, 128, 300, 16384, u32::MAX as u64, u64::MAX] {
        let mut buf = Vec::new();
        write_varint(&mut buf, v);
        let (got, n) = read_varint(&buf).unwrap();
        assert_eq!(got, v);
        assert_eq!(n, buf.len());
    }
}

#[test]
fn known_encoding() {
    let mut buf = Vec::new();
    write_varint(&mut buf, 300);
    assert_eq!(buf, [0xAC, 0x02]);
}

#[test]
fn varint_truncated_is_error() {
    assert!(matches!(read_varint(&[0x80]), Err(Error::Truncated)));
}

#[test]
fn bits_past_the_sixty_fourth_are_corrupt() {
    let mut max = [0xffu8; 10];
    max[9] = 0x01;
    assert_eq!(read_varint(&max), Ok((u64::MAX, 10)));

    let mut over = max;
    over[9] = 0x02;
    assert!(matches!(read_varint(&over), Err(Error::Corrupt)));

    let mut long = [0xffu8; 11];
    long[10] = 0x00;
    assert!(matches!(read_varint(&long), Err(Error::Corrupt)));
}

#[test]
fn plain_entry_roundtrip() {
    let mut buf = Vec::new();
    write_entry(&mut buf, CodecId::Store, CryptoId::Plain, 3, None, &[1, 2, 3]);
    let h = read_header(&buf).unwrap();
    assert_eq!(h.codec, CodecId::Store);
    assert_eq!(h.crypto, CryptoId::Plain);
    assert_eq!(h.orig_len, 3);
    assert!(h.nonce.is_none());
    assert_eq!(&buf[h.payload_offset..], &[1, 2, 3]);
}

#[test]
fn encrypted_entry_roundtrip() {
    let nonce = [9u8; 12];
    let tag = [7u8; 16];
    let mut buf = Vec::new();
    write_entry(
        &mut buf,
        CodecId::Deflate,
        CryptoId::ChaCha20Poly1305,
        100,
        Some((nonce, tag)),
        &[0xAA, 0xBB],
    );
    let h = read_header(&buf).unwrap();
    assert_eq!(h.codec, CodecId::Deflate);
    assert_eq!(h.crypto, CryptoId::ChaCha20Poly1305);
    assert_eq!(h.orig_len, 100);
    assert_eq!(h.nonce, Some(nonce));
    assert_eq!(h.tag, Some(tag));
    assert_eq!(&buf[h.payload_offset..], &[0xAA, 0xBB]);
}

#[test]
fn aes_encrypted_entry_roundtrip() {
    let nonce = [3u8; 12];
    let tag = [4u8; 16];
    let mut buf = Vec::new();
    write_entry(
        &mut buf,
        CodecId::Store,
        CryptoId::Aes256Gcm,
        5,
        Some((nonce, tag)),
        &[0xCC, 0xDD],
    );
    let h = read_header(&buf).unwrap();
    assert_eq!(h.crypto, CryptoId::Aes256Gcm);
    assert_eq!(h.nonce, Some(nonce));
    assert_eq!(h.tag, Some(tag));
    assert_eq!(&buf[h.payload_offset..], &[0xCC, 0xDD]);
}

#[test]
fn truncated_header_errors() {
    assert!(read_header(&[]).is_err());
}

#[test]
fn codec_roundtrip() {
    for id in [
        CodecId::Store,
        CodecId::Deflate,
        CodecId::Lz4,
        CodecId::Snappy,
        CodecId::Zstd,
        CodecId::Lzma,
    ] {
        assert_eq!(CodecId::from_u8(id.as_u8()).unwrap(), id);
    }
    assert!(matches!(CodecId::from_u8(9), Err(Error::UnknownCodec(9))));
}

#[test]
fn crypto_roundtrip() {
    assert_eq!(CryptoId::from_u8(1).unwrap(), CryptoId::ChaCha20Poly1305);
    assert_eq!(CryptoId::from_u8(2).unwrap(), CryptoId::Aes256Gcm);
    assert!(matches!(CryptoId::from_u8(7), Err(Error::UnknownCrypto(7))));
}

#[test]
fn error_messages_name_the_failure() {
    assert_eq!(Error::Truncated.message(), "input ended before a complete entry");
    assert_eq!(Error::Auth.message(), "authentication tag mismatch");
    assert_eq!(Error::UnknownCodec(9).message(), "unknown codec id 9");
    assert_eq!(Error::UnknownCrypto(200).message(), "unknown crypto id 200");
    assert_eq!(
        Error::Utf8 { valid_up_to: 12 }.message(),
        "decoded bytes are not valid UTF-8 at byte 12"
    );
}
