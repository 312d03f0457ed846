use crate::dispatch::encodes;
use crate::ids::CodecId;
use vstd::prelude::*;

verus! {

/// A selection policy for automatic codec choice: each tier names the
/// codecs it may pick from, and the tiers nest.
#[derive(Debug, Clone, Copy, PartialEq, Eq, Structural)]
pub enum AutoTier {
    /// The fast decoders: LZ4 and Snappy.
    Fast,
    /// Adds DEFLATE and Zstandard.
    Balanced,
    /// Every codec, LZMA included.
    Small,
}

/// Whether `id` is a candidate of `tier`.
pub open spec fn in_tier(tier: AutoTier, id: CodecId) -> bool {
    match id {
        CodecId::Lz4 | CodecId::Snappy => true,
        CodecId::Deflate | CodecId::Zstd => tier != AutoTier::Fast,
        CodecId::Lzma => tier == AutoTier::Small,
        CodecId::Store => false,
    }
}

/// The number of compressing codecs.
pub const TABLE_LEN: usize = 5;

/// The compressing codecs, in the order that breaks ties.
pub open spec fn codec_at(i: int) -> CodecId {
    if i == 0 {
        CodecId::Deflate
    } else if i == 1 {
        CodecId::Lz4
    } else if i == 2 {
        CodecId::Snappy
    } else if i == 3 {
        CodecId::Zstd
    } else {
        CodecId::Lzma
    }
}

/// The table entry at `i`.
pub fn table_entry(i: usize) -> (r: CodecId)
    requires
        i < TABLE_LEN,
    ensures
        r == codec_at(i as int),
{
    if i == 0 {
        CodecId::Deflate
    } else if i == 1 {
        CodecId::Lz4
    } else if i == 2 {
        CodecId::Snappy
    } else if i == 3 {
        CodecId::Zstd
    } else {
        CodecId::Lzma
    }
}

/// Whether a codec belongs to a tier.
pub fn tier_has(tier: AutoTier, id: CodecId) -> (r: bool)
    ensures
        r == in_tier(tier, id),
{
    match id {
        CodecId::Lz4 | CodecId::Snappy => true,
        CodecId::Deflate | CodecId::Zstd => match tier {
            AutoTier::Fast => false,
            _ => true,
        },
        CodecId::Lzma => match tier {
            AutoTier::Small => true,
            _ => false,
        },
        CodecId::Store => false,
    }
}

/// Among the first `k` table entries, the index of the tier's candidate
/// with the shortest output (the earliest on a tie), or `-1` if none of
/// them is a candidate.
pub open spec fn best_index(tier: AutoTier, outs: Seq<Seq<u8>>, k: nat) -> int
    decreases k,
{
    if k == 0 {
        -1
    } else {
        let prev = best_index(tier, outs, (k - 1) as nat);
        let i = k - 1;
        if in_tier(tier, codec_at(i)) && (prev < 0 || outs[i].len() < outs[prev].len()) {
            i
        } else {
            prev
        }
    }
}

/// What a tier picks, given each table codec's output: its shortest
/// candidate if that is strictly shorter than the input, else the input
/// stored.
pub open spec fn tier_pick(tier: AutoTier, outs: Seq<Seq<u8>>, input: Seq<u8>) -> (CodecId, Seq<
    u8,
>) {
    let b = best_index(tier, outs, TABLE_LEN as nat);
    if b >= 0 && outs[b].len() < input.len() {
        (codec_at(b), outs[b])
    } else {
        (CodecId::Store, input)
    }
}

/// The views of a vector of byte vectors.
pub open spec fn views(v: Seq<Vec<u8>>) -> Seq<Seq<u8>> {
    Seq::new(v.len(), |i: int| v[i]@)
}

/// `best_index` is a candidate no longer than any other candidate before
/// `k`, and exists as soon as one does.
pub proof fn lemma_best_index(tier: AutoTier, outs: Seq<Seq<u8>>, k: nat)
    requires
        k <= outs.len(),
    ensures
        -1 <= best_index(tier, outs, k) < k,
        best_index(tier, outs, k) >= 0 ==> in_tier(tier, codec_at(best_index(tier, outs, k))),
        forall|i: int|
            0 <= i < k && #[trigger] in_tier(tier, codec_at(i)) ==> best_index(tier, outs, k) >= 0
                && outs[best_index(tier, outs, k)].len() <= outs[i].len(),
    decreases k,
{
    if k > 0 {
        lemma_best_index(tier, outs, (k - 1) as nat);
    }
}

/// Every candidate before the best one is strictly longer.
pub proof fn lemma_best_earliest(tier: AutoTier, outs: Seq<Seq<u8>>, k: nat)
    requires
        k <= outs.len(),
    ensures
        forall|i: int|
            0 <= i < best_index(tier, outs, k) && #[trigger] in_tier(tier, codec_at(i)) ==> outs[i].len()
                > outs[best_index(tier, outs, k)].len(),
    decreases k,
{
    if k > 0 {
        lemma_best_earliest(tier, outs, (k - 1) as nat);
        lemma_best_index(tier, outs, (k - 1) as nat);
    }
}

/// A tier picks the smallest payload: no candidate's output and not the
/// input itself is shorter, and of equally short candidates the earliest
/// in the table wins.
pub proof fn law_tier_pick_smallest(tier: AutoTier, outs: Seq<Seq<u8>>, input: Seq<u8>)
    requires
        outs.len() == TABLE_LEN,
    ensures
        tier_pick(tier, outs, input).1.len() <= input.len(),
        forall|i: int|
            0 <= i < TABLE_LEN && #[trigger] in_tier(tier, codec_at(i)) ==> tier_pick(tier, outs, input).1.len()
                <= outs[i].len(),
        tier_pick(tier, outs, input).0 != CodecId::Store ==> tier_pick(tier, outs, input).1 == outs[best_index(
            tier,
            outs,
            TABLE_LEN as nat,
        )] && forall|i: int|
            0 <= i < best_index(tier, outs, TABLE_LEN as nat) && #[trigger] in_tier(tier, codec_at(i))
                ==> outs[i].len() > tier_pick(tier, outs, input).1.len(),
{
    lemma_best_index(tier, outs, TABLE_LEN as nat);
    lemma_best_earliest(tier, outs, TABLE_LEN as nat);
}

/// Every tier's payload is at most as long as the input: storing is the
/// fallback.
pub proof fn law_tier_never_larger(tier: AutoTier, outs: Seq<Seq<u8>>, input: Seq<u8>)
    requires
        outs.len() == TABLE_LEN,
    ensures
        tier_pick(tier, outs, input).1.len() <= input.len(),
        tier_pick(tier, outs, input).0 == CodecId::Store || in_tier(
            tier,
            tier_pick(tier, outs, input).0,
        ),
        tier_pick(tier, outs, input).0 == CodecId::Store ==> tier_pick(tier, outs, input).1
            == input,
{
    lemma_best_index(tier, outs, TABLE_LEN as nat);
}

/// What a tier picks reads back: a decode of the pick that succeeds gives
/// the input, and one of a Store, DEFLATE, Snappy or LZMA pick always
/// succeeds; any failure is `Corrupt` (the LZ4 and Zstandard decoders
/// reserve their output fallibly). A pick other than Store is strictly
/// shorter than the input. (Snappy's preamble names up to `u32::MAX`
/// bytes.)
pub proof fn law_tier_pick_roundtrips(
    tier: AutoTier,
    outs: Seq<Seq<u8>>,
    input: Seq<u8>,
    d: Result<Seq<u8>, crate::error::Error>,
)
    requires
        outs.len() == TABLE_LEN,
        input.len() <= u32::MAX,
        forall|i: int|
            0 <= i < TABLE_LEN && #[trigger] in_tier(tier, codec_at(i)) ==> crate::dispatch::encodes(
                codec_at(i),
                input,
                outs[i],
            ),
        crate::dispatch::decode_outcome(
            tier_pick(tier, outs, input).0,
            tier_pick(tier, outs, input).1,
            input.len() as usize,
            d,
        ),
    ensures
        d matches Ok(v) ==> v == input,
        ({
            let c = tier_pick(tier, outs, input).0;
            c == CodecId::Store || c == CodecId::Deflate || c == CodecId::Snappy || c == CodecId::Lzma
        }) ==> d == Ok::<Seq<u8>, crate::error::Error>(input),
        d matches Err(e) ==> e == crate::error::Error::Corrupt,
        tier_pick(tier, outs, input).0 != CodecId::Store ==> tier_pick(tier, outs, input).1.len()
            < input.len(),
{
    lemma_best_index(tier, outs, TABLE_LEN as nat);
    let pick = tier_pick(tier, outs, input);
    assert(crate::dispatch::encodes(pick.0, input, pick.1));
    crate::dispatch::law_codec_roundtrip(pick.0, input, pick.1, d);
}

/// The tiers nest, so over the same codec outputs a wider tier never picks
/// a longer payload than a narrower one.
pub proof fn law_wider_tier_no_larger(outs: Seq<Seq<u8>>, input: Seq<u8>)
    requires
        outs.len() == TABLE_LEN,
    ensures
        tier_pick(AutoTier::Balanced, outs, input).1.len() <= tier_pick(
            AutoTier::Fast,
            outs,
            input,
        ).1.len(),
        tier_pick(AutoTier::Small, outs, input).1.len() <= tier_pick(
            AutoTier::Balanced,
            outs,
            input,
        ).1.len(),
{
    let n = TABLE_LEN as nat;
    lemma_best_index(AutoTier::Fast, outs, n);
    lemma_best_index(AutoTier::Balanced, outs, n);
    lemma_best_index(AutoTier::Small, outs, n);
    let f = best_index(AutoTier::Fast, outs, n);
    let b = best_index(AutoTier::Balanced, outs, n);
    if f >= 0 {
        assert(in_tier(AutoTier::Balanced, codec_at(f)));
        assert(in_tier(AutoTier::Small, codec_at(f)));
    }
    if b >= 0 {
        assert(in_tier(AutoTier::Small, codec_at(b)));
    }
}

/// Picks a tier's payload from the table codecs' outputs (`outs[i]` is the
/// output of the `i`-th table codec; entries outside the tier are not
/// consulted), falling back to `stored` where no candidate is strictly
/// shorter than the input.
pub fn pick_best(tier: AutoTier, outs: Vec<Vec<u8>>, stored: Vec<u8>) -> (r: (CodecId, Vec<u8>))
    requires
        outs@.len() == TABLE_LEN,
    ensures
        (r.0, r.1@) == tier_pick(tier, views(outs@), stored@),
{
    let ghost vs = views(outs@);
    let mut best: usize = 0;
    let mut found = false;
    let mut i: usize = 0;
    while i < TABLE_LEN
        invariant
            i <= TABLE_LEN,
            outs@.len() == TABLE_LEN,
            vs == views(outs@),
            found ==> best < i && best_index(tier, vs, i as nat) == best as int,
            !found ==> best_index(tier, vs, i as nat) == -1,
        decreases TABLE_LEN - i,
    {
        let id = table_entry(i);
        if tier_has(tier, id) && (!found || outs[i].len() < outs[best].len()) {
            best = i;
            found = true;
        }
        i = i + 1;
    }
    if found && outs[best].len() < stored.len() {
        let mut outs = outs;
        let chosen = outs.remove(best);
        (table_entry(best), chosen)
    } else {
        (CodecId::Store, stored)
    }
}

/// Compresses `input` with each candidate of `tier` and keeps the shortest
/// output, or stores the input where none is strictly shorter. Ties go to
/// the earliest codec of the table (DEFLATE, LZ4, Snappy, Zstandard,
/// LZMA).
pub fn compress_best_in(tier: AutoTier, input: &[u8]) -> (r: (CodecId, Vec<u8>))
    ensures
        exists|outs: Seq<Seq<u8>>|
            {
                &&& outs.len() == TABLE_LEN
                &&& forall|i: int|
                    0 <= i < TABLE_LEN && #[trigger] in_tier(tier, codec_at(i)) ==> encodes(
                        codec_at(i),
                        input@,
                        outs[i],
                    )
                &&& (r.0, r.1@) == tier_pick(tier, outs, input@)
            },
        r.1@.len() <= input@.len(),
        r.0 == CodecId::Store || in_tier(tier, r.0),
        encodes(r.0, input@, r.1@),
{
    let mut outs: Vec<Vec<u8>> = Vec::new();
    let mut i: usize = 0;
    while i < TABLE_LEN
        invariant
            i <= TABLE_LEN,
            outs@.len() == i,
            forall|j: int|
                0 <= j < i && #[trigger] in_tier(tier, codec_at(j)) ==> encodes(
                    codec_at(j),
                    input@,
                    outs@[j]@,
                ),
        decreases TABLE_LEN - i,
    {
        let id = table_entry(i);
        if tier_has(tier, id) {
            outs.push(crate::dispatch::compress(id, input));
        } else {
            outs.push(Vec::new());
        }
        i = i + 1;
    }
    let ghost vs = views(outs@);
    let stored = crate::store::compress(input);
    let r = pick_best(tier, outs, stored);
    proof {
        law_tier_never_larger(tier, vs, input@);
        assert forall|j: int| 0 <= j < TABLE_LEN && #[trigger] in_tier(tier, codec_at(j)) implies encodes(
            codec_at(j),
            input@,
            vs[j],
        ) by {}
        lemma_best_index(tier, vs, TABLE_LEN as nat);
        let b = best_index(tier, vs, TABLE_LEN as nat);
        if r.0 != CodecId::Store {
            assert(b >= 0);
            assert(in_tier(tier, codec_at(b)));
        }
        assert(vs.len() == TABLE_LEN);
        assert((r.0, r.1@) == tier_pick(tier, vs, input@));
    }
    r
}

/// Compresses `input` with every codec and returns the smallest result;
/// exactly the [`AutoTier::Small`] tier.
pub fn compress_best(input: &[u8]) -> (r: (CodecId, Vec<u8>))
    ensures
        exists|outs: Seq<Seq<u8>>|
            {
                &&& outs.len() == TABLE_LEN
                &&& forall|i: int|
                    0 <= i < TABLE_LEN && #[trigger] in_tier(AutoTier::Small, codec_at(i))
                        ==> encodes(codec_at(i), input@, outs[i])
                &&& (r.0, r.1@) == tier_pick(AutoTier::Small, outs, input@)
            },
        r.1@.len() <= input@.len(),
        encodes(r.0, input@, r.1@),
{
    compress_best_in(AutoTier::Small, input)
}

} // verus!
