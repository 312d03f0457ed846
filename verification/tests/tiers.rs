use embark::best::{compress_best, compress_best_in, AutoTier};
use embark::dispatch::decompress;
use embark::CodecId;

const TIERS: &[AutoTier] = &[AutoTier::Fast, AutoTier::Balanced, AutoTier::Small];

const ENABLED: &[CodecId] = &[
    CodecId::Deflate,
    CodecId::Lz4,
    CodecId::Snappy,
    CodecId::Zstd,
    CodecId::Lzma,
];

fn membership(tier: AutoTier, id: CodecId) -> bool {
    match id {
        CodecId::Lz4 | CodecId::Snappy => true,
        CodecId::Deflate | CodecId::Zstd => tier != AutoTier::Fast,
        CodecId::Lzma => tier == AutoTier::Small,
        _ => false,
    }
}

fn candidates(tier: AutoTier) -> Vec<CodecId> {
    let wider = match tier {
        AutoTier::Fast => TIERS,
        AutoTier::Balanced => &TIERS[1..],
        AutoTier::Small => &TIERS[2..],
    };
    for &t in wider {
        let found: Vec<CodecId> = ENABLED.iter().copied().filter(|&id| membership(t, id)).collect();
        if !found.is_empty() {
            return found;
        }
    }
    Vec::new()
}

fn corpus() -> Vec<Vec<u8>> {
    vec![
        Vec::new(),
        b"x".to_vec(),
        b"The quick brown fox jumps over the lazy dog.".to_vec(),
        vec![0u8; 4096],
        b"embark embeds files into your binary. ".repeat(64),
        (0..4096u32).map(|i| (i.wrapping_mul(2_654_435_761) >> 13) as u8).collect(),
    ]
}

#[test]
fn every_tier_roundtrips() {
    for data in corpus() {
        for &tier in TIERS {
            let (id, packed) = compress_best_in(tier, &data);
            let back = decompress(id, &packed, data.len()).unwrap();
            assert_eq!(back, data, "tier {tier:?} picked {id:?}");
        }
    }
}

#[test]
fn a_tier_picks_only_its_own_candidates() {
    for data in corpus() {
        for &tier in TIERS {
            let (id, _) = compress_best_in(tier, &data);
            assert!(
                id == CodecId::Store || candidates(tier).contains(&id),
                "tier {tier:?} picked {id:?}, which is not among {:?}",
                candidates(tier)
            );
        }
    }
}

#[test]
fn a_tier_with_no_enabled_candidate_widens_rather_than_storing() {
    if candidates(AutoTier::Small).is_empty() {
        return;
    }
    let data = b"embark embeds files into your binary. ".repeat(64);
    for &tier in TIERS {
        let (id, packed) = compress_best_in(tier, &data);
        assert_ne!(id, CodecId::Store, "tier {tier:?} stored compressible data with {ENABLED:?} enabled");
        assert!(packed.len() < data.len());
    }
}

#[test]
fn no_tier_returns_more_bytes_than_storing() {
    for data in corpus() {
        for &tier in TIERS {
            let (_, packed) = compress_best_in(tier, &data);
            assert!(packed.len() <= data.len(), "tier {tier:?} grew the input");
        }
    }
}

#[test]
fn a_wider_tier_never_produces_a_larger_payload() {
    for data in corpus() {
        let fast = compress_best_in(AutoTier::Fast, &data).1.len();
        let balanced = compress_best_in(AutoTier::Balanced, &data).1.len();
        let small = compress_best_in(AutoTier::Small, &data).1.len();
        assert!(balanced <= fast, "{balanced} > {fast}");
        assert!(small <= balanced, "{small} > {balanced}");
    }
}

#[test]
fn the_small_tier_is_exactly_compress_best() {
    for data in corpus() {
        let (small_id, small) = compress_best_in(AutoTier::Small, &data);
        let (best_id, best) = compress_best(&data);
        assert_eq!(small_id, best_id);
        assert_eq!(small, best);
    }
}

#[test]
fn pick_best_breaks_ties_toward_the_earliest_codec() {
    let outs = vec![vec![1u8, 2], vec![3u8, 4], vec![5u8], vec![6u8], vec![7u8]];
    let (id, payload) = embark::best::pick_best(AutoTier::Small, outs.clone(), vec![0u8; 10]);
    assert_eq!(id, CodecId::Snappy);
    assert_eq!(payload, vec![5u8]);
    let (id, payload) = embark::best::pick_best(AutoTier::Fast, outs.clone(), vec![0u8; 10]);
    assert_eq!(id, CodecId::Snappy);
    assert_eq!(payload, vec![5u8]);
    let (id, payload) = embark::best::pick_best(AutoTier::Fast, outs, vec![0u8; 1]);
    assert_eq!(id, CodecId::Store);
    assert_eq!(payload, vec![0u8]);
}
