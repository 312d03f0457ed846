//! Sequence codes and the interleaved FSE bitstream of a compressed block
//! (RFC 8478, section 3.1.1.3.2).
use super::bitstream::{
    fields_fit, lemma_fit_push, lemma_packed_bound, lemma_push_tracks, marked_bytes, packed, width,
    BitWriter,
};
use crate::fse::{
    has_cell, ll_default, ml_default, normalized, of_default, steps_invert, table_ok, Encoder, Step,
    LL_LOG, ML_LOG, OF_LOG, OF_MAX_CODE,
};
use vstd::arithmetic::power2::{lemma2_to64, pow2};
use vstd::prelude::*;

verus! {

/// Literals-length baselines (RFC 8478, section 3.1.1.3.2.1.1).
pub open spec fn ll_base() -> Seq<u32> {
    seq![
        0u32, 1, 2, 3, 4, 5, 6, 7, 8, 9, 10, 11, 12, 13, 14, 15, 16, 18, 20, 22, 24, 28, 32, 40, 48,
        64, 128, 256, 512, 1024, 2048, 4096, 8192, 16384, 32768, 65536,
    ]
}

/// Extra bits carried by each literals-length code.
pub open spec fn ll_extra() -> Seq<u32> {
    seq![
        0u32, 0, 0, 0, 0, 0, 0, 0, 0, 0, 0, 0, 0, 0, 0, 0, 1, 1, 1, 1, 2, 2, 3, 3, 4, 6, 7, 8, 9, 10,
        11, 12, 13, 14, 15, 16,
    ]
}

/// Match-length baselines (RFC 8478, section 3.1.1.3.2.1.1).
pub open spec fn ml_base() -> Seq<u32> {
    seq![
        3u32, 4, 5, 6, 7, 8, 9, 10, 11, 12, 13, 14, 15, 16, 17, 18, 19, 20, 21, 22, 23, 24, 25, 26,
        27, 28, 29, 30, 31, 32, 33, 34, 35, 37, 39, 41, 43, 47, 51, 59, 67, 83, 99, 131, 259, 515,
        1027, 2051, 4099, 8195, 16387, 32771, 65539,
    ]
}

/// Extra bits carried by each match-length code.
pub open spec fn ml_extra() -> Seq<u32> {
    seq![
        0u32, 0, 0, 0, 0, 0, 0, 0, 0, 0, 0, 0, 0, 0, 0, 0, 0, 0, 0, 0, 0, 0, 0, 0, 0, 0, 0, 0, 0, 0,
        0, 0, 1, 1, 1, 1, 2, 2, 3, 3, 4, 4, 5, 7, 8, 9, 10, 11, 12, 13, 14, 15, 16,
    ]
}

/// The literals-length baselines.
pub fn ll_base_table() -> (r: Vec<u32>)
    ensures
        r@ == ll_base(),
{
    vec![
        0, 1, 2, 3, 4, 5, 6, 7, 8, 9, 10, 11, 12, 13, 14, 15, 16, 18, 20, 22, 24, 28, 32, 40, 48, 64,
        128, 256, 512, 1024, 2048, 4096, 8192, 16384, 32768, 65536,
    ]
}

/// The match-length baselines.
pub fn ml_base_table() -> (r: Vec<u32>)
    ensures
        r@ == ml_base(),
{
    vec![
        3, 4, 5, 6, 7, 8, 9, 10, 11, 12, 13, 14, 15, 16, 17, 18, 19, 20, 21, 22, 23, 24, 25, 26, 27,
        28, 29, 30, 31, 32, 33, 34, 35, 37, 39, 41, 43, 47, 51, 59, 67, 83, 99, 131, 259, 515, 1027,
        2051, 4099, 8195, 16387, 32771, 65539,
    ]
}

/// The literals-length extra-bit counts.
pub fn ll_extra_table() -> (r: Vec<u32>)
    ensures
        r@ == ll_extra(),
{
    vec![
        0, 0, 0, 0, 0, 0, 0, 0, 0, 0, 0, 0, 0, 0, 0, 0, 1, 1, 1, 1, 2, 2, 3, 3, 4, 6, 7, 8, 9, 10, 11,
        12, 13, 14, 15, 16,
    ]
}

/// The match-length extra-bit counts.
pub fn ml_extra_table() -> (r: Vec<u32>)
    ensures
        r@ == ml_extra(),
{
    vec![
        0, 0, 0, 0, 0, 0, 0, 0, 0, 0, 0, 0, 0, 0, 0, 0, 0, 0, 0, 0, 0, 0, 0, 0, 0, 0, 0, 0, 0, 0, 0,
        0, 1, 1, 1, 1, 2, 2, 3, 3, 4, 4, 5, 7, 8, 9, 10, 11, 12, 13, 14, 15, 16,
    ]
}

/// Consecutive baselines are exactly as far apart as the extra bits of the
/// lower one reach, so every value from the first baseline up to the last
/// one's reach has exactly one code.
pub open spec fn steps_fit(base: Seq<u32>, extra: Seq<u32>) -> bool {
    &&& base.len() == extra.len()
    &&& base.len() >= 1
    &&& forall|i: int|
        0 <= i < base.len() - 1 ==> #[trigger] base[i + 1] == base[i] + pow2(extra[i] as nat)
    &&& forall|i: int| 0 <= i < base.len() ==> #[trigger] extra[i] <= 16
}

/// Both length tables fit together.
pub proof fn lemma_tables_fit()
    ensures
        steps_fit(ll_base(), ll_extra()),
        steps_fit(ml_base(), ml_extra()),
        ll_base()[35] + pow2(16) == 131072,
        ml_base()[52] + pow2(16) == 131075,
{
    lemma2_to64();
    let lb = ll_base();
    let le = ll_extra();
    let mb = ml_base();
    let me = ml_extra();
    assert forall|i: int| 0 <= i < 35 implies #[trigger] lb[i + 1] == lb[i] + pow2(le[i] as nat) by {
        assert(0 <= i < 35);
    }
    assert forall|i: int| 0 <= i < 36 implies #[trigger] le[i] <= 16 by {
        assert(0 <= i < 36);
    }
    assert forall|i: int| 0 <= i < 52 implies #[trigger] mb[i + 1] == mb[i] + pow2(me[i] as nat) by {
        assert(0 <= i < 52);
    }
    assert forall|i: int| 0 <= i < 53 implies #[trigger] me[i] <= 16 by {
        assert(0 <= i < 53);
    }
}

/// The baselines rise.
proof fn lemma_rising(base: Seq<u32>, extra: Seq<u32>, i: int, j: int)
    requires
        steps_fit(base, extra),
        0 <= i < j < base.len(),
    ensures
        base[i] < base[j],
    decreases j - i,
{
    vstd::arithmetic::power2::lemma_pow2_pos(extra[j - 1] as nat);
    let k = j - 1;
    assert(base[k + 1] == base[k] + pow2(extra[k] as nat));
    if i < j - 1 {
        lemma_rising(base, extra, i, j - 1);
    }
}

/// `code` is the code of `value` in `base`: the largest baseline not above
/// it.
pub open spec fn is_code(base: Seq<u32>, value: int, code: int) -> bool {
    &&& 0 <= code < base.len()
    &&& base[code] <= value
    &&& code + 1 < base.len() ==> value < base[code + 1]
}

/// Both baseline tables rise strictly.
pub proof fn lemma_bases_rising()
    ensures
        forall|i: int, j: int| 0 <= i < j < ll_base().len() ==> ll_base()[i] < ll_base()[j],
        forall|i: int, j: int| 0 <= i < j < ml_base().len() ==> ml_base()[i] < ml_base()[j],
{
    lemma_tables_fit();
    assert forall|i: int, j: int| 0 <= i < j < ll_base().len() implies ll_base()[i] < ll_base()[j] by {
        lemma_rising(ll_base(), ll_extra(), i, j);
    }
    assert forall|i: int, j: int| 0 <= i < j < ml_base().len() implies ml_base()[i] < ml_base()[j] by {
        lemma_rising(ml_base(), ml_extra(), i, j);
    }
}

/// Index of the largest baseline not above `value`.
pub fn code_of(bases: &Vec<u32>, value: u32) -> (r: u32)
    requires
        1 <= bases@.len() < 0x1_0000,
        bases@[0] <= value,
        forall|i: int, j: int| 0 <= i < j < bases@.len() ==> bases@[i] < bases@[j],
    ensures
        is_code(bases@, value as int, r as int),
{
    let mut i: usize = 1;
    while i < bases.len() && bases[i] <= value
        invariant
            1 <= i <= bases@.len() < 0x1_0000,
            bases@[i - 1] <= value,
        decreases bases@.len() - i,
    {
        i = i + 1;
    }
    (i - 1) as u32
}

/// One sequence, already reduced to codes and the raw bits that go with
/// them.
#[derive(Clone, Copy)]
pub struct Coded {
    pub ll_code: u32,
    pub ll_extra: u32,
    pub ml_code: u32,
    pub ml_extra: u32,
    pub of_code: u32,
    pub of_extra: u32,
}

/// Every field of `c` fits the bits the format gives it.
pub open spec fn coded_ok(c: Coded) -> bool {
    &&& c.ll_code < 36
    &&& c.ml_code < 53
    &&& c.of_code <= OF_MAX_CODE
    &&& (c.ll_extra as int) < pow2(ll_extra()[c.ll_code as int] as nat)
    &&& (c.ml_extra as int) < pow2(ml_extra()[c.ml_code as int] as nat)
    &&& (c.of_extra as int) < pow2(c.of_code as nat)
}

impl Coded {
    /// Reduces a literals length, a match length and an offset value.
    ///
    /// `offset_value` is the format's encoding of the offset: 1, 2 and 3
    /// name repeat offsets, and anything larger is a literal distance plus
    /// three. Its code is the position of its top bit.
    pub fn new(literal_len: u32, match_len: u32, offset_value: u32) -> (r: Coded)
        requires
            literal_len < 131072,
            3 <= match_len < 131075,
            1 <= offset_value,
            (offset_value as int) < pow2((OF_MAX_CODE + 1) as nat),
        ensures
            is_code(ll_base(), literal_len as int, r.ll_code as int),
            is_code(ml_base(), match_len as int, r.ml_code as int),
            r.ll_extra == literal_len - ll_base()[r.ll_code as int],
            r.ml_extra == match_len - ml_base()[r.ml_code as int],
            pow2(r.of_code as nat) <= offset_value < pow2((r.of_code + 1) as nat),
            r.of_extra == offset_value - pow2(r.of_code as nat),
            coded_ok(r),
    {
        proof {
            lemma_tables_fit();
            assert forall|i: int, j: int| 0 <= i < j < ll_base().len() implies ll_base()[i]
                < ll_base()[j] by {
                lemma_rising(ll_base(), ll_extra(), i, j);
            }
            assert forall|i: int, j: int| 0 <= i < j < ml_base().len() implies ml_base()[i]
                < ml_base()[j] by {
                lemma_rising(ml_base(), ml_extra(), i, j);
            }
        }
        let ll_bases = ll_base_table();
        let ml_bases = ml_base_table();
        let ll_code = code_of(&ll_bases, literal_len);
        let ml_code = code_of(&ml_bases, match_len);
        let of_code = super::frame::bit_len(offset_value as u64) - 1;
        proof {
            super::frame::lemma_bit_length(offset_value as nat);
            lemma2_to64();
            if of_code > OF_MAX_CODE {
                vstd::arithmetic::power2::lemma_pow2_strictly_increases(
                    (OF_MAX_CODE + 1) as nat,
                    of_code as nat,
                );
            }
            vstd::bits::lemma_u32_shl_is_mul(1, of_code);
            vstd::arithmetic::power2::lemma_pow2_unfold((of_code + 1) as nat);
        }
        let r = Coded {
            ll_code,
            ll_extra: literal_len - ll_bases[ll_code as usize],
            ml_code,
            ml_extra: match_len - ml_bases[ml_code as usize],
            of_code,
            of_extra: offset_value - (1u32 << of_code),
        };
        proof {
            assert(ll_extra()[35] == 16 && ml_extra()[52] == 16);
        }
        r
    }
}

/// The three predefined tables, built once per frame.
pub struct Tables {
    pub literal_len: Encoder,
    pub match_len: Encoder,
    pub offset: Encoder,
}

/// An encoder for `n` symbols at accuracy `log` whose steps invert its
/// decoding table.
pub open spec fn encoder_ok(e: Encoder, n: nat, log: nat) -> bool {
    &&& e.size == pow2(log)
    &&& table_ok(e.table@, n, log)
    &&& steps_invert(e, n)
}

/// The three encoders are sound for their alphabets, and every code of
/// each has a cell.
pub open spec fn tables_ok(t: Tables) -> bool {
    &&& encoder_ok(t.literal_len, 36, LL_LOG as nat)
    &&& encoder_ok(t.match_len, 53, ML_LOG as nat)
    &&& encoder_ok(t.offset, 29, OF_LOG as nat)
    &&& forall|k: int| 0 <= k < 36 ==> #[trigger] has_cell(t.literal_len.table@, k)
    &&& forall|k: int| 0 <= k < 53 ==> #[trigger] has_cell(t.match_len.table@, k)
    &&& forall|k: int| 0 <= k < 29 ==> #[trigger] has_cell(t.offset.table@, k)
}

/// Each of the sequence's codes has a cell in its table, so each can be
/// coded.
pub open spec fn codable(t: Tables, c: Coded) -> bool {
    &&& has_cell(t.literal_len.table@, c.ll_code as int)
    &&& has_cell(t.match_len.table@, c.ml_code as int)
    &&& has_cell(t.offset.table@, c.of_code as int)
}

/// With sound tables, a sequence whose fields fit can be coded.
proof fn lemma_codable(t: Tables, c: Coded)
    requires
        tables_ok(t),
        coded_ok(c),
    ensures
        codable(t, c),
{
    assert(has_cell(t.literal_len.table@, c.ll_code as int));
    assert(has_cell(t.match_len.table@, c.ml_code as int));
    assert(has_cell(t.offset.table@, c.of_code as int));
}

impl Tables {
    pub fn new() -> (r: Tables)
        ensures
            tables_ok(r),
    {
        Tables {
            literal_len: Encoder::new(&ll_default(), LL_LOG),
            match_len: Encoder::new(&ml_default(), ML_LOG),
            offset: Encoder::new(&of_default(), OF_LOG),
        }
    }
}

/// The raw bits of one sequence, in the order they are written: literals
/// length, match length, offset.
pub open spec fn extra_fields(c: Coded) -> Seq<(u32, u32)> {
    seq![
        (c.ll_extra, ll_extra()[c.ll_code as int]),
        (c.ml_extra, ml_extra()[c.ml_code as int]),
        (c.of_extra, c.of_code),
    ]
}

/// The step that leaves the decoder in `state` after `symbol`.
pub open spec fn step_for(e: Encoder, symbol: u32, state: u16) -> Step {
    e.steps@[symbol * e.size + state]
}

/// The fields one sequence adds when the decoder is to be left in the given
/// states: the bits of the three state updates (offset, match length,
/// literals length), then its raw bits.
pub open spec fn update_fields(c: Coded, t: Tables, ll: u16, ml: u16, of: u16) -> Seq<(u32, u32)> {
    let os = step_for(t.offset, c.of_code, of);
    let ms = step_for(t.match_len, c.ml_code, ml);
    let ls = step_for(t.literal_len, c.ll_code, ll);
    seq![
        ((of - os.baseline) as u32, os.bits),
        ((ml - ms.baseline) as u32, ms.bits),
        ((ll - ls.baseline) as u32, ls.bits),
    ] + extra_fields(c)
}

/// The fields for the first `i` sequences, last first, starting from the
/// given states, and at the end the three initial states the decoder reads
/// first.
pub open spec fn state_fields(seqs: Seq<Coded>, t: Tables, i: int, ll: u16, ml: u16, of: u16) -> Seq<
    (u32, u32),
>
    decreases i,
{
    if i <= 0 {
        seq![(ml as u32, ML_LOG), (of as u32, OF_LOG), (ll as u32, LL_LOG)]
    } else {
        let c = seqs[i - 1];
        update_fields(c, t, ll, ml, of) + state_fields(
            seqs,
            t,
            i - 1,
            step_for(t.literal_len, c.ll_code, ll).state,
            step_for(t.match_len, c.ml_code, ml).state,
            step_for(t.offset, c.of_code, of).state,
        )
    }
}

/// The fields of the interleaved bitstream of `seqs`, in writing order: the
/// last sequence's raw bits, then the rest from the back.
pub open spec fn bitstream_fields(seqs: Seq<Coded>, t: Tables) -> Seq<(u32, u32)> {
    let c = seqs.last();
    extra_fields(c) + state_fields(
        seqs,
        t,
        seqs.len() - 1,
        t.literal_len.initial@[c.ll_code as int],
        t.match_len.initial@[c.ml_code as int],
        t.offset.initial@[c.of_code as int],
    )
}

/// The sequence-count bytes of a sequences section header.
pub open spec fn count_bytes(count: nat) -> Seq<u8> {
    if count < 128 {
        seq![count as u8]
    } else if count < 0x7f00 {
        seq![(count / 256 + 128) as u8, (count % 256) as u8]
    } else {
        seq![255u8, ((count - 0x7f00) % 256) as u8, (((count - 0x7f00) / 256) % 256) as u8]
    }
}

proof fn lemma_extra_fit(c: Coded)
    requires
        coded_ok(c),
    ensures
        forall|k: int| 0 <= k < 3 ==> #[trigger] extra_fields(c)[k].1 <= 28 && (extra_fields(c)[k].0 as int) < pow2(
            extra_fields(c)[k].1 as nat,
        ),
{
    lemma_tables_fit();
    assert(ll_extra()[c.ll_code as int] <= 16);
    assert(ml_extra()[c.ml_code as int] <= 16);
}

/// Writes the raw bits of one sequence.
fn push_extra(bw: &mut BitWriter, seq: &Coded, ll_bits: &Vec<u32>, ml_bits: &Vec<u32>)
    requires
        old(bw).wf(),
        coded_ok(*seq),
        ll_bits@ == ll_extra(),
        ml_bits@ == ml_extra(),
        old(bw).len() + 64 <= 8 * (usize::MAX - 8),
    ensures
        final(bw).wf(),
        final(bw).value() == old(bw).value() + packed(extra_fields(*seq)) * pow2(old(bw).len()),
        final(bw).len() == old(bw).len() + width(extra_fields(*seq)),
        width(extra_fields(*seq)) <= 60,
{
    let ghost v0 = bw.value();
    let ghost l0 = bw.len();
    let ghost e = extra_fields(*seq);
    proof {
        lemma_extra_fit(*seq);
        lemma2_to64();
        lemma_push_tracks(v0, l0, Seq::empty(), e[0]);
        lemma_push_tracks(v0, l0, seq![e[0]], e[1]);
        lemma_push_tracks(v0, l0, seq![e[0], e[1]], e[2]);
        assert(Seq::<(u32, u32)>::empty().push(e[0]) == seq![e[0]]);
        assert(seq![e[0]].push(e[1]) == seq![e[0], e[1]]);
        assert(seq![e[0], e[1]].push(e[2]) == e);
        assert(packed(Seq::<(u32, u32)>::empty()) == 0);
        assert(width(Seq::<(u32, u32)>::empty()) == 0);
    }
    bw.push(seq.ll_extra, ll_bits[seq.ll_code as usize]);
    bw.push(seq.ml_extra, ml_bits[seq.ml_code as usize]);
    bw.push(seq.of_extra, seq.of_code);
}

/// Fields that each fit give a run that fits.
proof fn lemma_fit_append(a: Seq<(u32, u32)>, b: Seq<(u32, u32)>)
    requires
        fields_fit(a),
        fields_fit(b),
    ensures
        fields_fit(a + b),
{
    assert forall|k: int| 0 <= k < (a + b).len() implies #[trigger] (a + b)[k].1 <= 28 && ((a
        + b)[k].0 as int) < pow2((a + b)[k].1 as nat) by {
        if k >= a.len() {
            assert((a + b)[k] == b[k - a.len()]);
        } else {
            assert((a + b)[k] == a[k]);
        }
    }
}

/// Writes what one sequence adds and returns the states the decoder is to
/// be in before it.
fn push_sequence(bw: &mut BitWriter, c: &Coded, tables: &Tables, ll: u16, ml: u16, of: u16, ll_bits: &Vec<u32>, ml_bits: &Vec<u32>) -> (r: (u16, u16, u16))
    requires
        old(bw).wf(),
        tables_ok(*tables),
        coded_ok(*c),
        codable(*tables, *c),
        ll < pow2(LL_LOG as nat),
        ml < pow2(ML_LOG as nat),
        of < pow2(OF_LOG as nat),
        ll_bits@ == ll_extra(),
        ml_bits@ == ml_extra(),
        old(bw).len() + 100 <= 8 * (usize::MAX - 8),
    ensures
        final(bw).wf(),
        final(bw).value() == old(bw).value() + packed(update_fields(*c, *tables, ll, ml, of))
            * pow2(old(bw).len()),
        final(bw).len() == old(bw).len() + width(update_fields(*c, *tables, ll, ml, of)),
        width(update_fields(*c, *tables, ll, ml, of)) <= 78,
        fields_fit(update_fields(*c, *tables, ll, ml, of)),
        r.0 == step_for(tables.literal_len, c.ll_code, ll).state,
        r.1 == step_for(tables.match_len, c.ml_code, ml).state,
        r.2 == step_for(tables.offset, c.of_code, of).state,
        r.0 < pow2(LL_LOG as nat),
        r.1 < pow2(ML_LOG as nat),
        r.2 < pow2(OF_LOG as nat),
{
    let ghost v0 = bw.value();
    let ghost l0 = bw.len();
    let ghost t = *tables;
    proof {
        lemma2_to64();
        crate::fse::lemma_rows(c.of_code as int, of as int, 0, 0, 32, 29);
        crate::fse::lemma_rows(c.ml_code as int, ml as int, 0, 0, 64, 53);
        crate::fse::lemma_rows(c.ll_code as int, ll as int, 0, 0, 64, 36);
    }
    let of_step = tables.offset.step(c.of_code, of);
    let ml_step = tables.match_len.step(c.ml_code, ml);
    let ll_step = tables.literal_len.step(c.ll_code, ll);
    let ghost f0 = ((of - of_step.baseline) as u32, of_step.bits);
    let ghost f1 = ((ml - ml_step.baseline) as u32, ml_step.bits);
    let ghost f2 = ((ll - ll_step.baseline) as u32, ll_step.bits);
    proof {
        assert(crate::fse::step_ok(t.offset.table@, of_step, c.of_code as int, of as int));
        assert(crate::fse::step_ok(t.match_len.table@, ml_step, c.ml_code as int, ml as int));
        assert(crate::fse::step_ok(t.literal_len.table@, ll_step, c.ll_code as int, ll as int));
        assert(t.offset.table@[of_step.state as int].bits <= OF_LOG);
        assert(t.match_len.table@[ml_step.state as int].bits <= ML_LOG);
        assert(t.literal_len.table@[ll_step.state as int].bits <= LL_LOG);
        let e: Seq<(u32, u32)> = Seq::empty();
        assert(packed(e) == 0 && width(e) == 0);
        lemma_push_tracks(v0, l0, e, f0);
        lemma_push_tracks(v0, l0, e.push(f0), f1);
        lemma_push_tracks(v0, l0, e.push(f0).push(f1), f2);
        assert(e.push(f0).push(f1).push(f2) == seq![f0, f1, f2]);
        assert(fields_fit(seq![f0, f1, f2]));
    }
    bw.push((of - of_step.baseline) as u32, of_step.bits);
    bw.push((ml - ml_step.baseline) as u32, ml_step.bits);
    bw.push((ll - ll_step.baseline) as u32, ll_step.bits);
    proof {
        lemma_extra_fit(*c);
        assert(fields_fit(extra_fields(*c)));
        lemma_fit_append(seq![f0, f1, f2], extra_fields(*c));
        super::bitstream::lemma_push_tracks_all(v0, l0, seq![f0, f1, f2], extra_fields(*c));
    }
    push_extra(bw, c, ll_bits, ml_bits);
    (ll_step.state, ml_step.state, of_step.state)
}

/// Builds the interleaved FSE bitstream.
///
/// The decoder reads, backwards from the end: the three initial states,
/// then for each sequence its offset, match-length and literals-length raw
/// bits, then (except after the last sequence) the state updates. Writing
/// is that list reversed, which is why this walks the sequences from the
/// back.
pub fn write_bitstream(seqs: &Vec<Coded>, tables: &Tables) -> (r: Vec<u8>)
    requires
        seqs@.len() >= 1,
        tables_ok(*tables),
        forall|k: int| 0 <= k < seqs@.len() ==> coded_ok(#[trigger] seqs@[k]),
        80 * seqs@.len() + 128 <= 8 * (usize::MAX - 8),
    ensures
        r@ == marked_bytes(bitstream_fields(seqs@, *tables)),
        r@.len() <= 10 * seqs@.len() + 12,
{
    let ll_bits = ll_extra_table();
    let ml_bits = ml_extra_table();
    let n = seqs.len();
    let mut bw = BitWriter::new();
    let last = &seqs[n - 1];
    proof {
        lemma2_to64();
        assert(coded_ok(seqs@[n - 1]));
        lemma_codable(*tables, seqs@[n - 1]);
    }
    let mut ll_state = tables.literal_len.initial_state(last.ll_code);
    let mut ml_state = tables.match_len.initial_state(last.ml_code);
    let mut of_state = tables.offset.initial_state(last.of_code);
    let ghost t = *tables;
    let ghost s = seqs@;
    push_extra(&mut bw, last, &ll_bits, &ml_bits);
    let ghost mut done: Seq<(u32, u32)> = extra_fields(*last);
    proof {
        lemma_extra_fit(*last);
        assert(fields_fit(done));
    }
    let mut i: usize = n - 1;
    while i > 0
        invariant
            t == *tables,
            s == seqs@,
            n == s.len(),
            i < n,
            tables_ok(t),
            forall|k: int| 0 <= k < s.len() ==> coded_ok(#[trigger] s[k]),
            80 * n + 128 <= 8 * (usize::MAX - 8),
            ll_bits@ == ll_extra(),
            ml_bits@ == ml_extra(),
            ll_state < pow2(LL_LOG as nat),
            ml_state < pow2(ML_LOG as nat),
            of_state < pow2(OF_LOG as nat),
            pow2(0) == 1,
            bw.wf(),
            bw.value() == packed(done),
            bw.len() == width(done),
            width(done) <= 60 + 80 * (n - 1 - i),
            fields_fit(done),
            bitstream_fields(s, t) == done + state_fields(s, t, i as int, ll_state, ml_state, of_state),
        decreases i,
    {
        let seq = &seqs[i - 1];
        let ghost before = done;
        let ghost st = (ll_state, ml_state, of_state);
        proof {
            assert(coded_ok(s[i - 1]));
            lemma_codable(t, s[i - 1]);
            super::bitstream::lemma_push_tracks_all(0, 0, done, update_fields(*seq, t, ll_state, ml_state, of_state));
        }
        let (a, b, c) = push_sequence(&mut bw, seq, tables, ll_state, ml_state, of_state, &ll_bits, &ml_bits);
        ll_state = a;
        ml_state = b;
        of_state = c;
        proof {
            let u = update_fields(*seq, t, st.0, st.1, st.2);
            lemma_fit_append(before, u);
            done = before + u;
            assert(state_fields(s, t, i as int, st.0, st.1, st.2) == u + state_fields(s, t, i - 1, a, b, c));
            assert(before + (u + state_fields(s, t, i - 1, a, b, c)) == done + state_fields(s, t, i - 1, a, b, c));
        }
        i = i - 1;
    }
    proof {
        lemma2_to64();
        let f = seq![(ml_state as u32, ML_LOG), (of_state as u32, OF_LOG), (ll_state as u32, LL_LOG)];
        lemma_push_tracks(0, 0, done, f[0]);
        lemma_push_tracks(0, 0, done.push(f[0]), f[1]);
        lemma_push_tracks(0, 0, done.push(f[0]).push(f[1]), f[2]);
        assert(done.push(f[0]).push(f[1]).push(f[2]) == done + f);
    }
    bw.push(ml_state as u32, ML_LOG);
    bw.push(of_state as u32, OF_LOG);
    bw.push(ll_state as u32, LL_LOG);
    bw.finish()
}

/// Serializes the sequences section of one block.
///
/// All three symbol types use `Predefined_Mode`, so the section is the
/// sequence count, a zero mode byte and the bitstream.
pub fn write_section(out: &mut Vec<u8>, seqs: &Vec<Coded>, tables: &Tables)
    requires
        tables_ok(*tables),
        forall|k: int| 0 <= k < seqs@.len() ==> coded_ok(#[trigger] seqs@[k]),
        old(out)@.len() + 20 * seqs@.len() + 64 <= usize::MAX,
    ensures
        seqs@.len() == 0 ==> final(out)@ == old(out)@.push(0),
        seqs@.len() > 0 ==> final(out)@ == old(out)@ + count_bytes(seqs@.len()) + seq![0u8]
            + marked_bytes(bitstream_fields(seqs@, *tables)),
{
    let count = seqs.len();
    if count == 0 {
        out.push(0);
        return;
    }
    let ghost start = out@;
    let c64 = count as u64;
    proof {
        crate::bits::lemma_u64_bits(c64);
    }
    if count < 128 {
        out.push(c64 as u8);
    } else if count < 0x7f00 {
        out.push(((c64 >> 8) as u8) + 128);
        out.push(c64 as u8);
    } else {
        let rest = c64 - 0x7f00;
        proof {
            crate::bits::lemma_u64_bits(rest);
            crate::bits::lemma_u64_bits(rest >> 8);
        }
        out.push(255);
        out.push(rest as u8);
        out.push((rest >> 8) as u8);
    }
    out.push(0);
    let stream = write_bitstream(seqs, tables);
    let mut k: usize = 0;
    let ghost mid = out@;
    while k < stream.len()
        invariant
            k <= stream@.len(),
            out@ == mid + stream@.subrange(0, k as int),
        decreases stream@.len() - k,
    {
        out.push(stream[k]);
        k = k + 1;
        proof {
            assert(stream@.subrange(0, k as int) == stream@.subrange(0, k - 1).push(stream@[k - 1]));
        }
    }
    proof {
        assert(stream@.subrange(0, stream@.len() as int) == stream@);
    }
}

} // verus!
