use embark::embed::wanted;
use embark::embed::shown_child;
use embark::embed::{ConfigError, ConfigKey, EmbedConfig};
use embark::embed::{walk_step, WalkStep};
use embark::pack::compress_arg;
use embark::args::{parse_codec, CipherArg, CodecArg, CryptArgs, OptionError};
use embark::best::AutoTier;
use embark::glob::{tokenize, Token};
use embark::obfuscate::{apply_forward, apply_inverse, inverse_perm, plan, seed_of, Op, Rng};
use embark::pack::{
    check_decode, codec_name, compress_checked, parse_hex_key, DecodeMismatch, KeyError, SealedFile,
};
use embark::{CodecId, CryptoId, Error};

#[test]
fn a_single_star_stays_inside_one_segment() {
    assert!(embark::glob::matches("*.png", "logo.png"));
    assert!(!embark::glob::matches("*.png", "sub/logo.png"));
    assert!(embark::glob::matches("sub/*.png", "sub/logo.png"));
    assert!(!embark::glob::matches("sub/*.png", "sub/deep/logo.png"));
}

#[test]
fn a_question_mark_is_one_character_and_never_a_separator() {
    assert!(embark::glob::matches("a?c.txt", "abc.txt"));
    assert!(!embark::glob::matches("a?c.txt", "ac.txt"));
    assert!(!embark::glob::matches("a?c", "a/c"));
}

#[test]
fn a_question_mark_is_one_character_in_any_script() {
    assert!(embark::glob::matches("?.png", "é.png"));
    assert!(embark::glob::matches("?.png", "日.png"));
    assert!(embark::glob::matches("?.png", "😀.png"));
    assert!(!embark::glob::matches("??.png", "é.png"));
    assert!(embark::glob::matches("caf?.txt", "café.txt"));
    assert!(embark::glob::matches("*é.txt", "café.txt"));
    assert!(embark::glob::matches("caf*", "café.txt"));
    assert!(embark::glob::matches("**/?.png", "sub/日.png"));
}

#[test]
fn a_double_star_segment_stands_for_any_number_of_segments() {
    assert!(embark::glob::matches("**/logo.png", "logo.png"));
    assert!(embark::glob::matches("**/logo.png", "sub/logo.png"));
    assert!(embark::glob::matches("**/logo.png", "a/b/c/logo.png"));
    assert!(embark::glob::matches("**/*.png", "a/b/logo.png"));
    assert!(!embark::glob::matches("**/*.png", "a/b/logo.jpg"));
}

#[test]
fn a_double_star_matches_in_the_middle_and_at_the_end() {
    assert!(embark::glob::matches("a/**/b.txt", "a/b.txt"));
    assert!(embark::glob::matches("a/**/b.txt", "a/x/b.txt"));
    assert!(embark::glob::matches("a/**/b.txt", "a/x/y/b.txt"));
    assert!(!embark::glob::matches("a/**/b.txt", "z/x/b.txt"));
    assert!(embark::glob::matches("a/**", "a/b.txt"));
    assert!(embark::glob::matches("a/**", "a/x/y/b.txt"));
    assert!(!embark::glob::matches("a/**", "a"));
}

#[test]
fn a_bare_double_star_takes_everything() {
    assert!(embark::glob::matches("**", "a.txt"));
    assert!(embark::glob::matches("**", "a/b/c.txt"));
}

#[test]
fn a_double_star_not_on_a_segment_boundary_is_a_star_that_crosses() {
    assert!(embark::glob::matches("a**z", "abz"));
    assert!(embark::glob::matches("a**z", "ab/cz"));
    assert!(!embark::glob::matches("a*z", "ab/cz"));
}

#[test]
fn a_run_of_wildcards_does_not_take_exponential_time() {
    let pattern = "*".repeat(40) + "x";
    let name = "a".repeat(60);
    assert!(!embark::glob::matches(&pattern, &name));
    let pattern = "**/".repeat(20) + "?*x";
    let name = "a/".repeat(30) + "b";
    assert!(!embark::glob::matches(&pattern, &name));
    assert!(embark::glob::matches(&("*".repeat(40) + "x"), &("a".repeat(60) + "x")));
}

#[test]
fn a_pattern_matches_nothing_it_does_not_cover() {
    assert!(!embark::glob::matches("", "a"));
    assert!(embark::glob::matches("", ""));
    assert!(!embark::glob::matches("a.txt", "a.txtx"));
    assert!(!embark::glob::matches("a.txt", "xa.txt"));
}

#[test]
fn tokenize_reads_each_wildcard_form() {
    assert_eq!(
        tokenize("a**/b**c*?"),
        vec![
            Token::Literal('a'),
            Token::Segments,
            Token::Literal('b'),
            Token::Cross,
            Token::Literal('c'),
            Token::Star,
            Token::One,
        ]
    );
}

fn rng() -> Rng {
    Rng::new().unwrap()
}

#[test]
fn inverse_perm_is_correct() {
    let mut r = rng();
    for _ in 0..1000 {
        let p = r.perm();
        let inv = inverse_perm(&p);
        let mut seen = [false; 32];
        for &pi in &p {
            assert!(!seen[pi as usize], "p is not a permutation");
            seen[pi as usize] = true;
        }
        let a = r.arr32();
        let mut b = a;
        apply_forward(&Op::Perm(p), &mut b);
        apply_forward(&Op::Perm(inv), &mut b);
        assert_eq!(a, b, "Perm(p) then Perm(inv_p) must be identity");
    }
}

#[test]
fn each_op_forward_then_inverse_is_identity() {
    let mut r = rng();
    for _ in 0..2000 {
        let ops = [
            Op::Xor(r.arr32()),
            Op::Add(r.arr32()),
            Op::Rotl(r.range_incl(1, 7)),
            Op::Perm(r.perm()),
            Op::Reverse,
        ];
        for op in &ops {
            let a = r.arr32();
            let mut b = a;
            apply_forward(op, &mut b);
            apply_inverse(op, &mut b);
            assert_eq!(a, b, "forward then inverse must be identity");
            let mut c = a;
            apply_inverse(op, &mut c);
            apply_forward(op, &mut c);
            assert_eq!(a, c, "inverse then forward must be identity");
        }
    }
}

#[test]
fn forward_of_seed_recovers_key() {
    let mut r = rng();
    for _ in 0..5000 {
        let key = r.arr32();
        let m = r.range_incl(8, 20);
        let program: Vec<Op> = (0..m).map(|_| Op::random(&mut r)).collect();
        let s0 = seed_of(key, &program);
        let mut a = s0;
        for op in &program {
            apply_forward(op, &mut a);
        }
        assert_eq!(a, key, "F(F^-1(key)) must equal key");
    }
}

#[test]
fn shares_xor_to_seed() {
    let mut r = rng();
    for _ in 0..2000 {
        let key = r.arr32();
        let p = plan(&mut r, key);
        let s0 = seed_of(key, &p.program);
        let mut acc = [0u8; 32];
        for sh in &p.shares {
            for i in 0..32 {
                acc[i] ^= sh[i];
            }
        }
        assert_eq!(acc, s0, "shares must XOR to S0");
        assert!(p.shares.len() >= 2 && p.shares.len() <= 3, "expected 2–3 shares");
    }
}

#[test]
fn seeded_generator_is_splitmix64() {
    let mut r = Rng { state: 0 };
    assert_eq!(r.next_u64(), 0xE220_A839_7B1D_CDAF);
    assert_eq!(r.state, 0x9E37_79B9_7F4A_7C15);
    let a = Rng::from_material(&[0u8; 32], &[0u8; 12]);
    let b = Rng::from_material(&[0u8; 32], &[1u8; 12]);
    assert_ne!(a.state, b.state);
}

#[test]
fn rotations_wrap_within_a_byte() {
    assert_eq!(embark::obfuscate::rotate_left8(0x81, 1), 0x03);
    assert_eq!(embark::obfuscate::rotate_right8(0x03, 1), 0x81);
    assert_eq!(embark::obfuscate::rotate_left8(0x81, 8), 0x81);
}

#[test]
fn debug_does_not_print_the_key() {
    let key = [0x7Fu8; 32];
    let sealed = SealedFile { entry: vec![1, 2, 3], key: Some(key) };
    let shown = sealed.describe();
    assert!(shown.contains("[redacted]"), "{shown}");
    assert!(!shown.contains("127"), "key material reached Debug: {shown}");
    assert_eq!(shown, "SealedFile { entry_len: 3, key: Some(\"[redacted]\") }");
}

const DATA: &[u8] = b"embark verifies that the decoder can read the encoder";

#[test]
fn a_corrupted_payload_names_the_path_the_codec_and_the_offset() {
    let mut payload = DATA.to_vec();
    payload[12] ^= 0x01;
    let err = check_decode(CodecId::Store, DATA, &payload).expect_err("a flipped byte must not verify");
    assert_eq!(err, DecodeMismatch::Differs { at: 12, want: DATA[12], found: DATA[12] ^ 0x01 });
    assert_eq!(codec_name(CodecId::Store), "store");
}

#[test]
fn a_truncated_payload_is_reported_as_a_decoder_rejection() {
    let err = check_decode(CodecId::Store, DATA, &DATA[..DATA.len() - 1])
        .expect_err("a truncated payload must not verify");
    assert_eq!(err, DecodeMismatch::Rejected(Error::Corrupt));
}

#[test]
fn an_untouched_payload_verifies() {
    let (codec, payload) = compress_checked(CodecId::Store, DATA).expect("store must round-trip");
    assert_eq!(codec, CodecId::Store);
    assert_eq!(payload, DATA);
}

#[test]
fn an_incompressible_payload_falls_back_to_store() {
    let (codec, payload) = compress_checked(CodecId::Deflate, b"x").unwrap();
    assert_eq!(codec, CodecId::Store);
    assert_eq!(payload, b"x");
}

#[test]
fn a_sealed_entry_opens_to_the_payload() {
    let data = b"sealed sealed sealed sealed sealed sealed".repeat(4);
    let key = [5u8; 32];
    let nonce = [6u8; 12];
    let entry = embark::pack::seal_entry(CodecArg::Fixed(CodecId::Deflate), CryptoId::ChaCha20Poly1305, &data, &key, &nonce).unwrap();
    let h = embark::entry::read_header(&entry).unwrap();
    assert_eq!(h.crypto, CryptoId::ChaCha20Poly1305);
    assert_eq!(h.orig_len, data.len() as u64);
    let payload = embark::crypt::dispatch::open(
        CryptoId::ChaCha20Poly1305,
        &key,
        &h.nonce.unwrap(),
        &entry[h.payload_offset..],
        &h.tag.unwrap(),
    )
    .unwrap();
    assert_eq!(embark::dispatch::decompress(h.codec, &payload, data.len()).unwrap(), data);
}

#[test]
fn a_build_time_key_is_sixty_four_hex_digits() {
    let key = parse_hex_key(&"0f".repeat(32)).unwrap();
    assert_eq!(key, [0x0f; 32]);
    let key = parse_hex_key(&"A0".repeat(32)).unwrap();
    assert_eq!(key, [0xa0; 32]);
    assert_eq!(parse_hex_key("abc"), Err(KeyError::Malformed { chars: 3 }));
    assert_eq!(parse_hex_key(&"zz".repeat(32)), Err(KeyError::Malformed { chars: 64 }));
}

#[test]
fn codec_names_parse_to_their_arguments() {
    assert_eq!(parse_codec("lzma"), Some(CodecArg::Fixed(CodecId::Lzma)));
    assert_eq!(parse_codec("auto"), Some(CodecArg::Auto(AutoTier::Balanced)));
    assert_eq!(parse_codec("auto_fast"), Some(CodecArg::Auto(AutoTier::Fast)));
    assert_eq!(parse_codec("auto_small"), Some(CodecArg::Auto(AutoTier::Small)));
    assert_eq!(parse_codec("gzip"), None);
}

#[test]
fn crypt_args_default_and_override() {
    let mut args = CryptArgs::new("assets/key.bin".to_string());
    assert_eq!(args.codec_id(), CodecId::Deflate);
    assert_eq!(args.crypto_id(), CryptoId::ChaCha20Poly1305);
    assert_eq!(args.apply_option("codec", "auto"), Ok(()));
    assert_eq!(args.codec_id(), CodecId::Deflate);
    assert_eq!(args.apply_option("codec", "zstd"), Ok(()));
    assert_eq!(args.codec_id(), CodecId::Zstd);
    assert_eq!(args.apply_option("cipher", "aes"), Ok(()));
    assert_eq!(args.cipher, Some(CipherArg::Aes));
    assert_eq!(args.crypto_id(), CryptoId::Aes256Gcm);
    assert_eq!(args.apply_option("key", "runtime"), Ok(()));
    assert!(args.runtime_key);
    assert_eq!(args.apply_option("key", "later"), Err(OptionError::ExpectedRuntime));
    assert_eq!(args.apply_option("cipher", "des"), Err(OptionError::UnknownCipher));
    assert_eq!(args.apply_option("codec", "gzip"), Err(OptionError::UnknownCodec));
    assert_eq!(args.apply_option("level", "9"), Err(OptionError::UnknownOption));
}

#[test]
fn the_filters_leave_out_what_omit_names_first() {
    let keep = vec!["**/*.png".to_string()];
    let omit = vec!["tmp/**".to_string()];
    assert!(wanted(&keep, &omit, "a/logo.png"));
    assert!(!wanted(&keep, &omit, "tmp/logo.png"));
    assert!(!wanted(&keep, &omit, "a/logo.jpg"));
    assert!(wanted(&Vec::new(), &omit, "a/logo.jpg"));
    assert!(!wanted(&Vec::new(), &omit, "tmp/x"));
}

#[test]
fn a_child_is_shown_under_the_folder_as_written() {
    assert_eq!(shown_child("assets//", "sub/logo.png"), "assets/sub/logo.png");
    assert_eq!(shown_child("assets", "logo.png"), "assets/logo.png");
}

#[test]
fn a_derive_configuration_reads_each_key_once() {
    let mut cfg = EmbedConfig::new();
    assert_eq!(cfg.set_value(ConfigKey::Folder, "assets"), Ok(()));
    assert_eq!(cfg.set_value(ConfigKey::Folder, "other"), Err(ConfigError::GivenTwice));
    assert_eq!(cfg.set_value(ConfigKey::Codec, "lz5"), Err(ConfigError::UnknownCodec));
    assert_eq!(cfg.set_value(ConfigKey::Cipher, "aes"), Ok(()));
    assert_eq!(cfg.set_value(ConfigKey::Keep, "*.png"), Ok(()));
    assert_eq!(cfg.set_value(ConfigKey::Keep, "*.jpg"), Ok(()));
    assert_eq!(cfg.set_flag(ConfigKey::Encrypt), Ok(()));
    assert_eq!(cfg.set_flag(ConfigKey::Encrypt), Err(ConfigError::GivenTwice));
    assert_eq!(cfg.set_flag(ConfigKey::Folder), Err(ConfigError::WrongForm));
    let s = cfg.finish().ok().unwrap();
    assert_eq!(s.folder, "assets");
    assert_eq!(s.codec, CodecArg::Fixed(CodecId::Deflate));
    assert_eq!(s.cipher, CryptoId::Aes256Gcm);
    assert!(s.encrypt);
    assert_eq!(s.keep.len(), 2);
    assert!(EmbedConfig::new().finish().is_err());
}

#[test]
fn a_link_is_refused_unless_links_are_followed() {
    assert_eq!(walk_step(true, false, false, true), WalkStep::RefuseLink);
    assert_eq!(walk_step(true, true, true, true), WalkStep::Descend);
    assert_eq!(walk_step(false, false, false, true), WalkStep::Embed);
    assert_eq!(walk_step(false, false, false, false), WalkStep::Skip);
}

#[test]
fn an_auto_policy_compresses_with_its_own_candidates() {
    let data = b"embark embeds files into your binary. ".repeat(64);
    let (c, p) = compress_arg(CodecArg::Auto(AutoTier::Fast), &data).unwrap();
    assert!(c == CodecId::Lz4 || c == CodecId::Snappy);
    assert!(p.len() < data.len());
    let entry = embark::pack::build_entry(CodecArg::Auto(AutoTier::Small), &data).unwrap();
    let h = embark::entry::read_header(&entry).unwrap();
    assert_eq!(embark::dispatch::decompress(h.codec, &entry[h.payload_offset..], data.len()).unwrap(), data);
}
