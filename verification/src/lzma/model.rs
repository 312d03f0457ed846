//! Every adaptive probability of an LZMA1 stream, with the length sub-coder,
//! driven by the decoder and the encoder alike.
use super::interval::{
    direct_ops, lemma_cons_tail, lemma_ops_ok_cons, lemma_rtree_len, lemma_run_append,
    lemma_run_cons, lemma_starts_join, lemma_starts_split, lemma_tree_len, ops_ok, op_ok, rtree_ops,
    rtree_probs, run, starts_with, step, tree_ops, tree_probs, adapt, bit_at, RcOp,
};
use super::rangecoder::{new_probs, next_bit_under, op_bit, prob_ok, probs_ok, RangeDecoder, RangeEncoder};
use vstd::prelude::*;

verus! {

/// Number of coder states.
pub const NUM_STATES: usize = 12;
/// Second dimension of the pos-state-indexed tables: `1 << kNumPosBitsMax`.
pub const POS_STATES_MAX: usize = 16;
/// Length states the distance slot is conditioned on.
pub const NUM_LEN_TO_POS: usize = 4;
/// Low distance bits coded with the alignment tree.
pub const NUM_ALIGN_BITS: u32 = 4;
/// First distance slot whose middle bits are coded directly.
pub const END_POS_MODEL_INDEX: u32 = 14;
/// `1 + kNumFullDistances - kEndPosModelIndex`.
pub const SPEC_POS_LEN: usize = 115;
/// Shortest match.
pub const MATCH_MIN_LEN: usize = 2;
/// Longest match.
pub const MATCH_MAX_LEN: usize = 273;

/// The length sub-coder's probabilities, by value.
pub struct LenView {
    pub choice: Seq<u16>,
    pub low: Seq<u16>,
    pub mid: Seq<u16>,
    pub high: Seq<u16>,
}

/// The decisions that code the raw length symbol `len` at pos state `ps`:
/// one or two choice bits, then a tree of three or eight bits.
pub open spec fn len_ops(v: LenView, len: nat, ps: nat) -> Seq<RcOp> {
    let c0 = v.choice[0];
    let ch1 = v.choice.update(0, adapt(c0, 1));
    if len < 8 {
        seq![RcOp::Bit { p: c0, bit: 0 }] + tree_ops(v.low, (ps * 8) as int, 1, len, 3)
    } else if len < 16 {
        seq![RcOp::Bit { p: c0, bit: 1 }, RcOp::Bit { p: ch1[1], bit: 0 }] + tree_ops(
            v.mid,
            (ps * 8) as int,
            1,
            (len - 8) as nat,
            3,
        )
    } else {
        seq![RcOp::Bit { p: c0, bit: 1 }, RcOp::Bit { p: ch1[1], bit: 1 }] + tree_ops(
            v.high,
            0,
            1,
            (len - 16) as nat,
            8,
        )
    }
}

/// The length sub-coder's probabilities after coding `len`.
pub open spec fn len_after(v: LenView, len: nat, ps: nat) -> LenView {
    let c0 = v.choice[0];
    let ch1 = v.choice.update(0, adapt(c0, 1));
    if len < 8 {
        LenView {
            choice: v.choice.update(0, adapt(c0, 0)),
            low: tree_probs(v.low, (ps * 8) as int, 1, len, 3),
            mid: v.mid,
            high: v.high,
        }
    } else if len < 16 {
        LenView {
            choice: ch1.update(1, adapt(ch1[1], 0)),
            low: v.low,
            mid: tree_probs(v.mid, (ps * 8) as int, 1, (len - 8) as nat, 3),
            high: v.high,
        }
    } else {
        LenView {
            choice: ch1.update(1, adapt(ch1[1], 1)),
            low: v.low,
            mid: v.mid,
            high: tree_probs(v.high, 0, 1, (len - 16) as nat, 8),
        }
    }
}

/// The length sub-coder: a raw length symbol in `0..=271` (the match length
/// is that plus `MATCH_MIN_LEN`).
pub struct LenCoder {
    /// `choice` and `choice2`.
    pub choice: Vec<u16>,
    /// Three-bit trees for lengths 0..8, one per pos state.
    pub low: Vec<u16>,
    /// Three-bit trees for lengths 8..16, one per pos state.
    pub mid: Vec<u16>,
    /// The eight-bit tree for lengths from 16 on.
    pub high: Vec<u16>,
}

impl LenCoder {
    pub open spec fn wf(&self) -> bool {
        &&& self.choice@.len() == 2
        &&& self.low@.len() == 128
        &&& self.mid@.len() == 128
        &&& self.high@.len() == 256
        &&& probs_ok(self.choice@)
        &&& probs_ok(self.low@)
        &&& probs_ok(self.mid@)
        &&& probs_ok(self.high@)
    }

    /// The probabilities, by value.
    pub open spec fn view(&self) -> LenView {
        LenView { choice: self.choice@, low: self.low@, mid: self.mid@, high: self.high@ }
    }

    pub fn new() -> (c: Self)
        ensures
            c.wf(),
            forall|i: int| 0 <= i < 2 ==> c.choice@[i] == 1024,
            forall|i: int| 0 <= i < 128 ==> c.low@[i] == 1024 && c.mid@[i] == 1024,
            forall|i: int| 0 <= i < 256 ==> c.high@[i] == 1024,
    {
        LenCoder { choice: new_probs(2), low: new_probs(128), mid: new_probs(128), high: new_probs(256) }
    }

    /// Decodes a raw length symbol. If the decoder follows a coding whose
    /// next decisions are those of `len`, the result is `len`.
    pub fn decode(&mut self, rc: &mut RangeDecoder<'_>, pos_state: usize, Ghost(len): Ghost<nat>) -> (r:
        usize)
        requires
            old(self).wf(),
            old(rc).wf(),
            pos_state < POS_STATES_MAX,
        ensures
            final(self).wf(),
            final(rc).wf(),
            final(rc).input == old(rc).input,
            final(rc).read_past >= old(rc).read_past,
            r < 272,
            old(rc).live@ && len < 272 && starts_with(
                old(rc).todo@,
                len_ops(old(self).view(), len, pos_state as nat),
            ) ==> final(rc).live@ && r == len && final(rc).todo@ == old(rc).todo@.skip(
                len_ops(old(self).view(), len, pos_state as nat).len() as int,
            ) && final(rc).at@ == run(old(rc).at@, len_ops(old(self).view(), len, pos_state as nat))
                && final(self).view() == len_after(old(self).view(), len, pos_state as nat),
    {
        let ghost v = self.view();
        let ghost ops = len_ops(v, len, pos_state as nat);
        let ghost ok = rc.live@ && len < 272 && starts_with(rc.todo@, ops);
        let ghost todo0 = rc.todo@;
        let ghost at0 = rc.at@;
        let ghost c0 = v.choice[0];
        let ghost ch1 = v.choice.update(0, adapt(c0, 1));
        let ghost b0: u32 = if len < 8 { 0 } else { 1 };
        let ghost b1: u32 = if len < 16 { 0 } else { 1 };
        let ghost base8 = (pos_state * 8) as int;
        let ghost lowt = tree_ops(v.low, base8, 1, len, 3);
        let ghost midt = tree_ops(v.mid, base8, 1, (len - 8) as nat, 3);
        let ghost hight = tree_ops(v.high, 0, 1, (len - 16) as nat, 8);
        let ghost a = RcOp::Bit { p: c0, bit: b0 };
        let ghost bb = RcOp::Bit { p: ch1[1], bit: b1 };
        let ghost tail1 = if len < 8 {
            lowt
        } else if len < 16 {
            seq![bb] + midt
        } else {
            seq![bb] + hight
        };
        assert((1usize << 3usize) == 8 && (1u32 << 3u32) == 8 && (1usize << 8usize) == 256 && (1u32
            << 8u32) == 256) by {
            crate::bits::lemma_shift_consts();
        }
        proof {
            lemma_tree_len(v.low, base8, 1, len, 3);
            lemma_tree_len(v.mid, base8, 1, (len - 8) as nat, 3);
            lemma_tree_len(v.high, 0, 1, (len - 16) as nat, 8);
            if len >= 8 && len < 16 {
                assert(seq![a, bb] + midt =~= seq![a] + (seq![bb] + midt));
            }
            if len >= 16 {
                assert(seq![a, bb] + hight =~= seq![a] + (seq![bb] + hight));
            }
            assert(ops == seq![a] + tail1);
            if ok {
                lemma_starts_split(todo0, seq![a], tail1);
                assert(todo0.take(1)[0] == todo0[0]);
                assert(todo0[0] == a);
                assert(todo0.drop_first() =~= todo0.skip(1));
            }
        }
        let first = rc.decode_bit(&mut self.choice, 0);
        proof {
            if ok {
                assert(first == b0);
                lemma_run_cons(at0, a, tail1);
            }
        }
        if first == 0 {
            let r = rc.decode_bittree(&mut self.low, pos_state * 8, 3, Ghost(len)) as usize;
            proof {
                if ok {
                    assert(len < 8);
                    assert(todo0.skip(1).skip(3) =~= todo0.skip(4));
                }
            }
            r
        } else {
            proof {
                if ok {
                    assert(len >= 8);
                    assert(self.choice@ == ch1);
                    let t1 = if len < 16 { midt } else { hight };
                    assert(tail1 == seq![bb] + t1);
                    lemma_starts_split(todo0.skip(1), seq![bb], t1);
                    assert(todo0.skip(1).take(1)[0] == todo0.skip(1)[0]);
                    assert(todo0.skip(1)[0] == bb);
                    assert(todo0.skip(1).drop_first() =~= todo0.skip(2));
                    assert(todo0.skip(1).skip(1) =~= todo0.skip(2));
                    lemma_run_cons(step(at0, a), bb, t1);
                }
            }
            let second = rc.decode_bit(&mut self.choice, 1);
            if second == 0 {
                let r = 8 + rc.decode_bittree(&mut self.mid, pos_state * 8, 3, Ghost((len - 8) as nat)) as usize;
                proof {
                    if ok {
                        assert(len < 16);
                        assert(todo0.skip(2).skip(3) =~= todo0.skip(5));
                    }
                }
                r
            } else {
                let r = 16 + rc.decode_bittree(&mut self.high, 0, 8, Ghost((len - 16) as nat)) as usize;
                proof {
                    if ok {
                        assert(len >= 16);
                        assert(todo0.skip(2).skip(8) =~= todo0.skip(10));
                    }
                }
                r
            }
        }
    }

    /// Encodes the raw length symbol `len` (below 272).
    pub fn encode(&mut self, rc: &mut RangeEncoder, len: usize, pos_state: usize)
        requires
            old(self).wf(),
            old(rc).wf(),
            old(rc).roomy(10),
            pos_state < POS_STATES_MAX,
            len < 272,
        ensures
            final(self).wf(),
            final(rc).wf(),
            final(rc).interval() == run(old(rc).interval(), len_ops(old(self).view(), len as nat, pos_state as nat)),
            final(self).view() == len_after(old(self).view(), len as nat, pos_state as nat),
            ops_ok(len_ops(old(self).view(), len as nat, pos_state as nat)),
            len_ops(old(self).view(), len as nat, pos_state as nat).len() <= 10,
            final(rc).out@.len() >= old(rc).out@.len(),
            final(rc).out@.subrange(0, old(rc).out@.len() as int) == old(rc).out@,
    {
        let ghost o = rc.out@;
        let ghost v = self.view();
        let ghost s0 = rc.interval();
        let ghost c0 = v.choice[0];
        let ghost ch1 = v.choice.update(0, adapt(c0, 1));
        assert((1usize << 3usize) == 8 && (1usize << 8usize) == 256) by {
            crate::bits::lemma_shift_consts();
        }
        if len < 8 {
            rc.encode_bit(&mut self.choice, 0, 0);
            let ghost s1 = rc.interval();
            let ghost m = rc.out@;
            rc.encode_bittree(&mut self.low, pos_state * 8, len as u32, 3);
            assert(rc.out@.subrange(0, o.len() as int) == rc.out@.subrange(0, m.len() as int).subrange(0, o.len() as int));
            proof {
                let h = seq![RcOp::Bit { p: c0, bit: 0 }];
                let t = tree_ops(v.low, pos_state * 8, 1, len as nat, 3);
                lemma_run_append(s0, h, t);
                lemma_run_cons(s0, h[0], Seq::<RcOp>::empty());
                assert(h =~= seq![h[0]] + Seq::<RcOp>::empty());
                lemma_ops_ok_cons(h[0], t);
                lemma_tree_len(v.low, pos_state * 8, 1, len as nat, 3);
            }
        } else if len < 16 {
            rc.encode_bit(&mut self.choice, 0, 1);
            let ghost m1 = rc.out@;
            let ghost s1 = rc.interval();
            rc.encode_bit(&mut self.choice, 1, 0);
            let ghost m2 = rc.out@;
            rc.encode_bittree(&mut self.mid, pos_state * 8, (len - 8) as u32, 3);
            assert(rc.out@.subrange(0, o.len() as int) == rc.out@.subrange(0, m2.len() as int).subrange(0, m1.len() as int).subrange(0, o.len() as int));
            proof {
                let a = RcOp::Bit { p: c0, bit: 1 };
                let b = RcOp::Bit { p: ch1[1], bit: 0 };
                let t = tree_ops(v.mid, pos_state * 8, 1, (len - 8) as nat, 3);
                assert(seq![a, b] + t =~= seq![a] + (seq![b] + t));
                lemma_run_cons(s0, a, seq![b] + t);
                lemma_run_cons(s1, b, t);
                lemma_ops_ok_cons(b, t);
                lemma_ops_ok_cons(a, seq![b] + t);
                lemma_tree_len(v.mid, pos_state * 8, 1, (len - 8) as nat, 3);
            }
        } else {
            rc.encode_bit(&mut self.choice, 0, 1);
            let ghost m1 = rc.out@;
            let ghost s1 = rc.interval();
            rc.encode_bit(&mut self.choice, 1, 1);
            let ghost m2 = rc.out@;
            rc.encode_bittree(&mut self.high, 0, (len - 16) as u32, 8);
            assert(rc.out@.subrange(0, o.len() as int) == rc.out@.subrange(0, m2.len() as int).subrange(0, m1.len() as int).subrange(0, o.len() as int));
            proof {
                let a = RcOp::Bit { p: c0, bit: 1 };
                let b = RcOp::Bit { p: ch1[1], bit: 1 };
                let t = tree_ops(v.high, 0, 1, (len - 16) as nat, 8);
                assert(seq![a, b] + t =~= seq![a] + (seq![b] + t));
                lemma_run_cons(s0, a, seq![b] + t);
                lemma_run_cons(s1, b, t);
                lemma_ops_ok_cons(b, t);
                lemma_ops_ok_cons(a, seq![b] + t);
                lemma_tree_len(v.high, 0, 1, (len - 16) as nat, 8);
            }
        }
    }
}

/// Every probability of a model, by value: those a coding of literals and
/// new matches touches, and those of the repeated matches.
pub struct Tables {
    pub lit: Seq<u16>,
    pub pos_slot: Seq<u16>,
    pub spec_pos: Seq<u16>,
    pub align: Seq<u16>,
    pub is_match: Seq<u16>,
    pub is_rep: Seq<u16>,
    pub len: LenView,
    pub is_rep_g0: Seq<u16>,
    pub is_rep_g1: Seq<u16>,
    pub is_rep_g2: Seq<u16>,
    pub is_rep0_long: Seq<u16>,
    pub rep_len: LenView,
}

/// The decisions that code the last `k` bits of the literal `sym` over the
/// literal block at `base`, from node `m`: while `matched`, against the
/// same bits of the match byte `mb`, and once a bit differs, plainly.
pub open spec fn lit_ops(t: Seq<u16>, base: int, m: int, sym: nat, mb: nat, matched: bool, k: nat) -> Seq<
    RcOp,
>
    decreases k,
{
    if k == 0 {
        Seq::empty()
    } else {
        let b = bit_at(sym, (k - 1) as nat);
        let mbit = bit_at(mb, (k - 1) as nat);
        let i = if matched {
            base + 0x100 * (1 + mbit) + m
        } else {
            base + m
        };
        seq![RcOp::Bit { p: t[i], bit: b }] + lit_ops(
            t.update(i, adapt(t[i], b)),
            base,
            2 * m + b,
            sym,
            mb,
            matched && mbit == b,
            (k - 1) as nat,
        )
    }
}

/// The literal block's probabilities after those decisions.
pub open spec fn lit_probs(t: Seq<u16>, base: int, m: int, sym: nat, mb: nat, matched: bool, k: nat) -> Seq<
    u16,
>
    decreases k,
{
    if k == 0 {
        t
    } else {
        let b = bit_at(sym, (k - 1) as nat);
        let mbit = bit_at(mb, (k - 1) as nat);
        let i = if matched {
            base + 0x100 * (1 + mbit) + m
        } else {
            base + m
        };
        lit_probs(t.update(i, adapt(t[i], b)), base, 2 * m + b, sym, mb, matched && mbit == b, (k - 1) as nat)
    }
}

pub proof fn lemma_lit_len(t: Seq<u16>, base: int, m: int, sym: nat, mb: nat, matched: bool, k: nat)
    ensures
        lit_ops(t, base, m, sym, mb, matched, k).len() == k,
    decreases k,
{
    if k > 0 {
        let b = bit_at(sym, (k - 1) as nat);
        let mbit = bit_at(mb, (k - 1) as nat);
        let i = if matched {
            base + 0x100 * (1 + mbit) + m
        } else {
            base + m
        };
        lemma_lit_len(t.update(i, adapt(t[i], b)), base, 2 * m + b, sym, mb, matched && mbit == b, (k - 1) as nat);
    }
}

/// The count of direct bits under distance slot `slot`.
pub open spec fn slot_bits(slot: u32) -> u32 {
    ((slot >> 1u32) - 1u32) as u32
}

/// The smallest distance of slot `slot`.
pub open spec fn slot_base(slot: u32) -> u32 {
    ((2u32 | (slot & 1u32)) << slot_bits(slot)) as u32
}

/// `slot` is the distance slot of `dist`: the distance itself below 4, and
/// otherwise the slot whose span holds it.
pub open spec fn slot_ok(dist: u32, slot: u32) -> bool {
    &&& slot < 64
    &&& dist < 4 ==> slot == dist
    &&& dist >= 4 ==> 4 <= slot && slot_base(slot) <= dist && dist - slot_base(slot) < (1u32 << slot_bits(slot))
}

/// The length state a distance is coded under.
pub open spec fn len_state_of(len_sym: nat) -> nat {
    if len_sym < 3 {
        len_sym
    } else {
        3
    }
}

/// The decisions that code the distance `dist` (in slot `slot`) of a
/// match of raw length `len_sym`: the slot, then the bits below it, through
/// a small reverse tree, or directly with the last four through the
/// alignment tree.
pub open spec fn dist_ops(t: Tables, dist: u32, slot: u32, len_sym: nat) -> Seq<RcOp> {
    let head = tree_ops(t.pos_slot, (len_state_of(len_sym) * 64) as int, 1, slot as nat, 6);
    if slot < 4 {
        head
    } else {
        let nd = slot_bits(slot);
        let red = (dist - slot_base(slot)) as u32;
        if slot < 14 {
            head + rtree_ops(t.spec_pos, slot_base(slot) - slot, 1, red as nat, 0, nd as nat)
        } else {
            head + direct_ops((red >> 4u32) as nat, (nd - 4) as nat) + rtree_ops(
                t.align,
                0,
                1,
                (red & 15u32) as nat,
                0,
                4,
            )
        }
    }
}

/// The tables after coding that distance.
pub open spec fn dist_after(t: Tables, dist: u32, slot: u32, len_sym: nat) -> Tables {
    let slots = tree_probs(t.pos_slot, (len_state_of(len_sym) * 64) as int, 1, slot as nat, 6);
    let nd = slot_bits(slot);
    let red = (dist - slot_base(slot)) as u32;
    if slot < 4 {
        Tables { pos_slot: slots, ..t }
    } else if slot < 14 {
        Tables {
            pos_slot: slots,
            spec_pos: rtree_probs(t.spec_pos, slot_base(slot) - slot, 1, red as nat, 0, nd as nat),
            ..t
        }
    } else {
        Tables {
            pos_slot: slots,
            align: rtree_probs(t.align, 0, 1, (red & 15u32) as nat, 0, 4),
            ..t
        }
    }
}

/// The literal context of a model with `lc` literal bits and position
/// mask `lp_mask`: low position bits and high bits of the previous byte.
pub open spec fn lit_ctx(lc: u32, lp_mask: u32, total_pos: usize, prev_byte: u8) -> int {
    ((((total_pos as u32) & lp_mask) << lc) + ((prev_byte as u32) >> ((8 - lc) as u32))) as int
}

/// Every adaptive probability in an LZMA1 stream; `lc`, `lp` and `pb` come
/// from the `.lzma` header.
pub struct LzmaModel {
    pub lc: u32,
    pub lp: u32,
    pub lp_mask: u32,
    pub pb_mask: usize,
    pub lit: Vec<u16>,
    pub pos_slot: Vec<u16>,
    pub spec_pos: Vec<u16>,
    pub align: Vec<u16>,
    pub is_match: Vec<u16>,
    pub is_rep: Vec<u16>,
    pub len_coder: LenCoder,
    pub is_rep_g0: Vec<u16>,
    pub is_rep_g1: Vec<u16>,
    pub is_rep_g2: Vec<u16>,
    pub is_rep0_long: Vec<u16>,
    pub rep_len_coder: LenCoder,
}

/// A length symbol whose decisions under length tables `v` at pos state
/// `ps` begin `todo`, where there is one.
pub open spec fn rep_len_coded(v: LenView, todo: Seq<RcOp>, ps: nat) -> nat {
    choose|n: nat| n < 272 && starts_with(todo, len_ops(v, n, ps))
}

/// The number of literal probabilities for `lc` and `lp`.
pub open spec fn lit_size(lc: u32, lp: u32) -> nat {
    0x300 * vstd::arithmetic::power2::pow2((lc + lp) as nat)
}

/// A table of `n` probabilities at one half.
pub open spec fn halves(n: nat) -> Seq<u16> {
    Seq::new(n, |i: int| 1024u16)
}

/// The tables of a fresh model.
pub open spec fn fresh_tables(lit_len: nat) -> Tables {
    Tables {
        lit: halves(lit_len),
        pos_slot: halves(256),
        spec_pos: halves(SPEC_POS_LEN as nat),
        align: halves(16),
        is_match: halves(192),
        is_rep: halves(12),
        len: LenView { choice: halves(2), low: halves(128), mid: halves(128), high: halves(256) },
        is_rep_g0: halves(12),
        is_rep_g1: halves(12),
        is_rep_g2: halves(12),
        is_rep0_long: halves(192),
        rep_len: LenView { choice: halves(2), low: halves(128), mid: halves(128), high: halves(256) },
    }
}

impl LzmaModel {
    pub open spec fn wf(&self) -> bool {
        &&& self.lc <= 8
        &&& self.lp <= 4
        &&& self.lp_mask == (1u32 << self.lp) - 1
        &&& self.pb_mask < 16
        &&& self.lit@.len() == lit_size(self.lc, self.lp)
        &&& self.pos_slot@.len() == 256
        &&& self.spec_pos@.len() == SPEC_POS_LEN
        &&& self.align@.len() == 16
        &&& self.is_match@.len() == 192
        &&& self.is_rep@.len() == 12
        &&& self.is_rep_g0@.len() == 12
        &&& self.is_rep_g1@.len() == 12
        &&& self.is_rep_g2@.len() == 12
        &&& self.is_rep0_long@.len() == 192
        &&& probs_ok(self.lit@)
        &&& probs_ok(self.pos_slot@)
        &&& probs_ok(self.spec_pos@)
        &&& probs_ok(self.align@)
        &&& probs_ok(self.is_match@)
        &&& probs_ok(self.is_rep@)
        &&& probs_ok(self.is_rep_g0@)
        &&& probs_ok(self.is_rep_g1@)
        &&& probs_ok(self.is_rep_g2@)
        &&& probs_ok(self.is_rep0_long@)
        &&& self.len_coder.wf()
        &&& self.rep_len_coder.wf()
    }

    /// Every probability of the model, by value.
    pub open spec fn tables(&self) -> Tables {
        Tables {
            lit: self.lit@,
            pos_slot: self.pos_slot@,
            spec_pos: self.spec_pos@,
            align: self.align@,
            is_match: self.is_match@,
            is_rep: self.is_rep@,
            len: self.len_coder.view(),
            is_rep_g0: self.is_rep_g0@,
            is_rep_g1: self.is_rep_g1@,
            is_rep_g2: self.is_rep_g2@,
            is_rep0_long: self.is_rep0_long@,
            rep_len: self.rep_len_coder.view(),
        }
    }

    /// A model with every probability at one half.
    pub fn new(lc: u32, lp: u32, pb: u32) -> (m: Self)
        requires
            lc <= 8,
            lp <= 4,
            pb <= 4,
        ensures
            m.wf(),
            m.lc == lc,
            m.lp == lp,
            m.pb_mask == (1usize << pb) - 1,
            m.tables() == fresh_tables(lit_size(lc, lp)),
    {
        let shift = lc + lp;
        assert(shift <= 12 ==> (0x300usize << shift) == 0x300 * (1usize << shift)) by (bit_vector);
        proof {
            vstd::arithmetic::power2::lemma_pow2_pos(shift as nat);
            assert(vstd::arithmetic::power2::pow2(shift as nat) <= 0x1000) by {
                vstd::arithmetic::power2::lemma2_to64();
                if shift < 12 {
                    vstd::arithmetic::power2::lemma_pow2_strictly_increases(shift as nat, 12);
                }
            }
            vstd::bits::lemma_usize_shl_is_mul(1, shift as usize);
        }
        let lit_len = 0x300usize << shift;
        assert(1u32 << lp >= 1 && (1usize << pb) >= 1 && (1usize << pb) - 1 < 16) by (bit_vector)
            requires
                lp <= 4,
                pb <= 4,
        ;
        let m = LzmaModel {
            lc,
            lp,
            lp_mask: (1u32 << lp) - 1,
            pb_mask: (1usize << pb) - 1,
            lit: new_probs(lit_len),
            pos_slot: new_probs(256),
            spec_pos: new_probs(SPEC_POS_LEN),
            align: new_probs(16),
            is_match: new_probs(192),
            is_rep: new_probs(12),
            len_coder: LenCoder::new(),
            is_rep_g0: new_probs(12),
            is_rep_g1: new_probs(12),
            is_rep_g2: new_probs(12),
            is_rep0_long: new_probs(192),
            rep_len_coder: LenCoder::new(),
        };
        proof {
            assert(m.lit@ =~= halves(lit_len as nat));
            assert(m.pos_slot@ =~= halves(256));
            assert(m.spec_pos@ =~= halves(SPEC_POS_LEN as nat));
            assert(m.align@ =~= halves(16));
            assert(m.is_match@ =~= halves(192));
            assert(m.is_rep@ =~= halves(12));
            assert(m.len_coder.choice@ =~= halves(2));
            assert(m.len_coder.low@ =~= halves(128));
            assert(m.len_coder.mid@ =~= halves(128));
            assert(m.len_coder.high@ =~= halves(256));
            assert(m.is_rep_g0@ =~= halves(12));
            assert(m.is_rep_g1@ =~= halves(12));
            assert(m.is_rep_g2@ =~= halves(12));
            assert(m.is_rep0_long@ =~= halves(192));
            assert(m.rep_len_coder.choice@ =~= halves(2));
            assert(m.rep_len_coder.low@ =~= halves(128));
            assert(m.rep_len_coder.mid@ =~= halves(128));
            assert(m.rep_len_coder.high@ =~= halves(256));
        }
        m
    }

    /// The pos state of output position `total_pos`.
    pub fn pos_state(&self, total_pos: usize) -> (ps: usize)
        requires
            self.wf(),
        ensures
            ps < POS_STATES_MAX,
            ps == total_pos & self.pb_mask,
    {
        let m = self.pb_mask;
        assert(m < 16 ==> (total_pos & m) < 16) by (bit_vector);
        total_pos & self.pb_mask
    }

    /// Literal probability context: `((pos & lp_mask) << lc) + (prev >> (8 - lc))`.
    fn lit_state(&self, total_pos: usize, prev_byte: u8) -> (ls: usize)
        requires
            self.wf(),
        ensures
            ls * 0x300 + 0x300 <= self.lit@.len(),
            ls == lit_ctx(self.lc, self.lp_mask, total_pos, prev_byte),
    {
        let lc = self.lc;
        let lp = self.lp;
        let mask = self.lp_mask;
        let a = (total_pos as u32 & mask) << lc;
        let sh = 8 - lc;
        let b = (prev_byte as u32) >> sh;
        assert(a + b < (1u32 << (lc + lp))) by (bit_vector)
            requires
                lc <= 8,
                lp <= 4,
                mask == (1u32 << lp) - 1,
                a == ((total_pos as u32) & mask) << lc,
                sh == 8 - lc,
                b == (prev_byte as u32) >> sh,
        ;
        let ls = (a + b) as usize;
        proof {
            vstd::arithmetic::power2::lemma2_to64();
            if lc + lp < 12 {
                vstd::arithmetic::power2::lemma_pow2_strictly_increases((lc + lp) as nat, 12);
            }
            vstd::bits::lemma_u32_shl_is_mul(1, (lc + lp) as u32);
            assert(ls * 0x300 + 0x300 <= 0x300 * vstd::arithmetic::power2::pow2((lc + lp) as nat))
                by (nonlinear_arith)
                requires
                    ls < vstd::arithmetic::power2::pow2((lc + lp) as nat),
            ;
        }
        ls
    }

    /// Decodes the `is_match` bit of state `st` and pos state `ps`.
    pub fn decode_is_match(&mut self, rc: &mut RangeDecoder<'_>, st: usize, ps: usize) -> (b: u32)
        requires
            old(self).wf(),
            old(rc).wf(),
            st < NUM_STATES,
            ps < POS_STATES_MAX,
        ensures
            final(self).wf(),
            final(rc).wf(),
            final(rc).input == old(rc).input,
            final(rc).read_past >= old(rc).read_past,
            b <= 1,
            final(self).lc == old(self).lc && final(self).lp_mask == old(self).lp_mask && final(self).pb_mask
                == old(self).pb_mask,
            final(self).tables() == (Tables {
                is_match: old(self).is_match@.update(
                    st * 16 + ps,
                    adapt(old(self).is_match@[st * 16 + ps], b),
                ),
                ..old(self).tables()
            }),
            old(rc).live@ && next_bit_under(old(rc).todo@, old(self).is_match@[st * 16 + ps]) ==> final(
            rc).live@ && b == op_bit(old(rc).todo@[0]) && final(rc).todo@ == old(rc).todo@.drop_first()
                && final(rc).at@ == step(old(rc).at@, old(rc).todo@[0]),
    {
        rc.decode_bit(&mut self.is_match, st * 16 + ps)
    }

    /// Decodes the `is_rep` bit of state `st`.
    pub fn decode_is_rep(&mut self, rc: &mut RangeDecoder<'_>, st: usize) -> (b: u32)
        requires
            old(self).wf(),
            old(rc).wf(),
            st < NUM_STATES,
        ensures
            final(self).wf(),
            final(rc).wf(),
            final(rc).input == old(rc).input,
            final(rc).read_past >= old(rc).read_past,
            b <= 1,
            final(self).lc == old(self).lc && final(self).lp_mask == old(self).lp_mask && final(self).pb_mask
                == old(self).pb_mask,
            final(self).tables() == (Tables {
                is_rep: old(self).is_rep@.update(st as int, adapt(old(self).is_rep@[st as int], b)),
                ..old(self).tables()
            }),
            old(rc).live@ && next_bit_under(old(rc).todo@, old(self).is_rep@[st as int]) ==> final(
            rc).live@ && b == op_bit(old(rc).todo@[0]) && final(rc).todo@ == old(rc).todo@.drop_first()
                && final(rc).at@ == step(old(rc).at@, old(rc).todo@[0]),
    {
        rc.decode_bit(&mut self.is_rep, st)
    }

    /// Decodes the `is_rep_g0` bit of state `st`.
    pub fn decode_is_rep_g0(&mut self, rc: &mut RangeDecoder<'_>, st: usize) -> (b: u32)
        requires
            old(self).wf(),
            old(rc).wf(),
            st < NUM_STATES,
        ensures
            final(self).wf(),
            final(rc).wf(),
            final(rc).input == old(rc).input,
            final(rc).read_past >= old(rc).read_past,
            b <= 1,
            final(self).lc == old(self).lc && final(self).lp_mask == old(self).lp_mask && final(self).pb_mask
                == old(self).pb_mask,
            final(self).tables() == (Tables {
                is_rep_g0: old(self).is_rep_g0@.update(st as int, adapt(old(self).is_rep_g0@[st as int], b)),
                ..old(self).tables()
            }),
            old(rc).live@ && next_bit_under(old(rc).todo@, old(self).is_rep_g0@[st as int]) ==> final(rc).live@ && b
                == op_bit(old(rc).todo@[0]) && final(rc).todo@ == old(rc).todo@.drop_first() && final(
            rc).at@ == step(old(rc).at@, old(rc).todo@[0]),
    {
        rc.decode_bit(&mut self.is_rep_g0, st)
    }

    /// Decodes the `is_rep_g1` bit of state `st`.
    pub fn decode_is_rep_g1(&mut self, rc: &mut RangeDecoder<'_>, st: usize) -> (b: u32)
        requires
            old(self).wf(),
            old(rc).wf(),
            st < NUM_STATES,
        ensures
            final(self).wf(),
            final(rc).wf(),
            final(rc).input == old(rc).input,
            final(rc).read_past >= old(rc).read_past,
            b <= 1,
            final(self).lc == old(self).lc && final(self).lp_mask == old(self).lp_mask && final(self).pb_mask
                == old(self).pb_mask,
            final(self).tables() == (Tables {
                is_rep_g1: old(self).is_rep_g1@.update(st as int, adapt(old(self).is_rep_g1@[st as int], b)),
                ..old(self).tables()
            }),
            old(rc).live@ && next_bit_under(old(rc).todo@, old(self).is_rep_g1@[st as int]) ==> final(rc).live@ && b
                == op_bit(old(rc).todo@[0]) && final(rc).todo@ == old(rc).todo@.drop_first() && final(
            rc).at@ == step(old(rc).at@, old(rc).todo@[0]),
    {
        rc.decode_bit(&mut self.is_rep_g1, st)
    }

    /// Decodes the `is_rep_g2` bit of state `st`.
    pub fn decode_is_rep_g2(&mut self, rc: &mut RangeDecoder<'_>, st: usize) -> (b: u32)
        requires
            old(self).wf(),
            old(rc).wf(),
            st < NUM_STATES,
        ensures
            final(self).wf(),
            final(rc).wf(),
            final(rc).input == old(rc).input,
            final(rc).read_past >= old(rc).read_past,
            b <= 1,
            final(self).lc == old(self).lc && final(self).lp_mask == old(self).lp_mask && final(self).pb_mask
                == old(self).pb_mask,
            final(self).tables() == (Tables {
                is_rep_g2: old(self).is_rep_g2@.update(st as int, adapt(old(self).is_rep_g2@[st as int], b)),
                ..old(self).tables()
            }),
            old(rc).live@ && next_bit_under(old(rc).todo@, old(self).is_rep_g2@[st as int]) ==> final(rc).live@ && b
                == op_bit(old(rc).todo@[0]) && final(rc).todo@ == old(rc).todo@.drop_first() && final(
            rc).at@ == step(old(rc).at@, old(rc).todo@[0]),
    {
        rc.decode_bit(&mut self.is_rep_g2, st)
    }

    /// Decodes the `is_rep0_long` bit of state `st` and pos state `ps`.
    pub fn decode_is_rep0_long(&mut self, rc: &mut RangeDecoder<'_>, st: usize, ps: usize) -> (b:
        u32)
        requires
            old(self).wf(),
            old(rc).wf(),
            st < NUM_STATES,
            ps < POS_STATES_MAX,
        ensures
            final(self).wf(),
            final(rc).wf(),
            final(rc).input == old(rc).input,
            final(rc).read_past >= old(rc).read_past,
            b <= 1,
            final(self).lc == old(self).lc && final(self).lp_mask == old(self).lp_mask && final(self).pb_mask
                == old(self).pb_mask,
            final(self).tables() == (Tables {
                is_rep0_long: old(self).is_rep0_long@.update(st * 16 + ps, adapt(old(self).is_rep0_long@[st * 16 + ps], b)),
                ..old(self).tables()
            }),
            old(rc).live@ && next_bit_under(old(rc).todo@, old(self).is_rep0_long@[st * 16 + ps]) ==> final(rc).live@ && b
                == op_bit(old(rc).todo@[0]) && final(rc).todo@ == old(rc).todo@.drop_first() && final(
            rc).at@ == step(old(rc).at@, old(rc).todo@[0]),
    {
        rc.decode_bit(&mut self.is_rep0_long, st * 16 + ps)
    }

    /// Decodes the raw length symbol of a repeated match: the length whose
    /// decisions the decoder is following, where there is one.
    pub fn decode_rep_len(&mut self, rc: &mut RangeDecoder<'_>, ps: usize) -> (len: usize)
        requires
            old(self).wf(),
            old(rc).wf(),
            ps < POS_STATES_MAX,
        ensures
            final(self).wf(),
            final(rc).wf(),
            final(rc).input == old(rc).input,
            final(rc).read_past >= old(rc).read_past,
            len < 272,
            final(self).lc == old(self).lc && final(self).lp_mask == old(self).lp_mask && final(self).pb_mask
                == old(self).pb_mask,
            final(self).tables() == (Tables { rep_len: final(self).rep_len_coder.view(), ..old(self).tables() }),
            ({
                let n = rep_len_coded(old(self).rep_len_coder.view(), old(rc).todo@, ps as nat);
                old(rc).live@ && n < 272 && starts_with(
                    old(rc).todo@,
                    len_ops(old(self).rep_len_coder.view(), n, ps as nat),
                ) ==> final(rc).live@ && len == n && final(rc).todo@ == old(rc).todo@.skip(
                    len_ops(old(self).rep_len_coder.view(), n, ps as nat).len() as int,
                ) && final(rc).at@ == run(old(rc).at@, len_ops(old(self).rep_len_coder.view(), n, ps as nat))
                    && final(self).rep_len_coder.view() == len_after(
                    old(self).rep_len_coder.view(),
                    n,
                    ps as nat,
                )
            }),
    {
        let ghost n = rep_len_coded(self.rep_len_coder.view(), rc.todo@, ps as nat);
        self.rep_len_coder.decode(rc, ps, Ghost(n))
    }

    /// Decodes the raw length symbol of a new match.
    pub fn decode_new_len(&mut self, rc: &mut RangeDecoder<'_>, ps: usize, Ghost(len): Ghost<nat>) -> (r: usize)
        requires
            old(self).wf(),
            old(rc).wf(),
            ps < POS_STATES_MAX,
        ensures
            final(self).wf(),
            final(rc).wf(),
            final(rc).input == old(rc).input,
            final(rc).read_past >= old(rc).read_past,
            r < 272,
            final(self).lc == old(self).lc && final(self).lp_mask == old(self).lp_mask && final(self).pb_mask
                == old(self).pb_mask,
            old(rc).live@ && len < 272 && starts_with(old(rc).todo@, len_ops(old(self).tables().len, len, ps as nat))
                ==> final(rc).live@ && r == len && final(rc).todo@ == old(rc).todo@.skip(
                len_ops(old(self).tables().len, len, ps as nat).len() as int,
            ) && final(rc).at@ == run(old(rc).at@, len_ops(old(self).tables().len, len, ps as nat))
                && final(self).tables() == (Tables {
                len: len_after(old(self).tables().len, len, ps as nat),
                ..old(self).tables()
            }),
    {
        self.len_coder.decode(rc, ps, Ghost(len))
    }

    /// Decodes one literal byte. `prev_byte` is the previous output byte (0
    /// at the start); `match_byte` the byte at distance `rep0 + 1`, which the
    /// bits are coded against right after a match (`state >= 7`) until the
    /// first that differs. If the decoder follows a coding whose next
    /// decisions are those of `sym`, the result is `sym`.
    pub fn decode_literal(
        &mut self,
        rc: &mut RangeDecoder<'_>,
        total_pos: usize,
        prev_byte: u8,
        state: usize,
        match_byte: u8,
        Ghost(sym): Ghost<nat>,
    ) -> (r: u8)
        requires
            old(self).wf(),
            old(rc).wf(),
        ensures
            final(self).wf(),
            final(rc).wf(),
            final(rc).input == old(rc).input,
            final(rc).read_past >= old(rc).read_past,
            final(self).lc == old(self).lc && final(self).lp_mask == old(self).lp_mask && final(self).pb_mask
                == old(self).pb_mask,
            ({
                let base = lit_ctx(old(self).lc, old(self).lp_mask, total_pos, prev_byte) * 0x300;
                let ops = lit_ops(old(self).lit@, base, 1, sym, match_byte as nat, state >= 7, 8);
                old(rc).live@ && sym < 256 && starts_with(old(rc).todo@, ops) ==> final(rc).live@ && r
                    == sym && final(rc).todo@ == old(rc).todo@.skip(8) && final(rc).at@ == run(
                    old(rc).at@,
                    ops,
                ) && final(self).tables() == (Tables {
                    lit: lit_probs(old(self).lit@, base, 1, sym, match_byte as nat, state >= 7, 8),
                    ..old(self).tables()
                })
            }),
    {
        let ls = self.lit_state(total_pos, prev_byte);
        let llen = self.lit.len();
        let base = ls * 0x300;
        let ghost t0 = self.tables();
        let ghost l0 = lit_ops(self.lit@, base as int, 1, sym, match_byte as nat, state >= 7, 8);
        let ghost ok = rc.live@ && sym < 256 && starts_with(rc.todo@, l0);
        let ghost rest0 = rc.todo@.skip(8);
        let ghost target = run(rc.at@, l0);
        let ghost ptarget = lit_probs(self.lit@, base as int, 1, sym, match_byte as nat, state >= 7, 8);
        let ghost su = sym as u32;
        proof {
            lemma_lit_len(self.lit@, base as int, 1, sym, match_byte as nat, state >= 7, 8);
            if ok {
                assert(rc.todo@ =~= l0 + rest0);
                assert((1u32 << 8u32) == 256) by {
                    crate::bits::lemma_shift_consts();
                }
                crate::bits::lemma_tree_node(su, 0, 8);
            }
        }
        let mut symbol: u32 = 1;
        let mut same = state >= 7;
        let mut k: u32 = 8;
        assert((1u32 << 0u32) == 1 && (1u32 << 1u32) == 2 && (1u32 << 8u32) == 256 && (1u32 << 9u32)
            == 512) by {
            crate::bits::lemma_shift_consts();
        }
        while k > 0
            invariant
                self.wf(),
                rc.wf(),
                rc.input == old(rc).input,
                rc.read_past >= old(rc).read_past,
                base + 0x300 <= self.lit@.len(),
                k <= 8,
                1 <= symbol,
                (1u32 << (8 - k) as u32) <= symbol < (1u32 << (9 - k) as u32),
                self.lc == old(self).lc && self.lp_mask == old(self).lp_mask && self.pb_mask == old(self).pb_mask,
                self.tables() == (Tables { lit: self.lit@, ..t0 }),
                (1u32 << 8u32) == 256 && (1u32 << 9u32) == 512,
                ok ==> rc.live@,
                ok ==> rc.todo@ == lit_ops(self.lit@, base as int, symbol as int, sym, match_byte as nat, same, k as nat)
                    + rest0,
                ok ==> run(rc.at@, lit_ops(self.lit@, base as int, symbol as int, sym, match_byte as nat, same, k as nat))
                    == target,
                ok ==> lit_probs(self.lit@, base as int, symbol as int, sym, match_byte as nat, same, k as nat)
                    == ptarget,
                ok ==> symbol == ((1u32 << (8 - k) as u32) | (su >> k)),
                ok ==> su as nat == sym && su < 256,
            decreases k,
        {
            assert((1u32 << (8 - k) as u32) <= symbol < (1u32 << (9 - k) as u32) && 0 < k <= 8 ==> symbol
                < 0x100) by (bit_vector);
            k = k - 1;
            let ghost kk = (k + 1) as nat;
            let ghost j = k as nat;
            let ghost mbit = bit_at(match_byte as nat, j);
            let ghost b = bit_at(sym, j);
            let ghost i: int = if same {
                base + 0x100 * (1 + mbit) + symbol
            } else {
                base + symbol
            };
            let ghost op = RcOp::Bit { p: self.lit@[i], bit: b };
            let ghost t2 = self.lit@.update(i, adapt(self.lit@[i], b));
            let ghost inner = lit_ops(t2, base as int, 2 * symbol + b, sym, match_byte as nat, same && mbit == b, j);
            let ghost s = rc.at@;
            proof {
                if ok {
                    assert(lit_ops(self.lit@, base as int, symbol as int, sym, match_byte as nat, same, kk) == seq![op]
                        + inner);
                    assert(lit_probs(self.lit@, base as int, symbol as int, sym, match_byte as nat, same, kk)
                        == lit_probs(t2, base as int, 2 * symbol + b, sym, match_byte as nat, same && mbit == b, j));
                    lemma_cons_tail(op, inner, rest0);
                    lemma_run_cons(s, op, inner);
                    vstd::bits::lemma_u32_shr_is_div(su, k);
                    crate::bits::lemma_coder_words(su >> k, 0, 0);
                }
                vstd::bits::lemma_u32_shr_is_div(match_byte as u32, k);
                crate::bits::lemma_coder_words((match_byte as u32) >> k, 0, 0);
            }
            let bit;
            if same {
                let match_bit = ((match_byte as u32) >> k) & 1;
                assert(((match_byte as u32) >> k) & 1u32 <= 1) by {
                    crate::bits::lemma_bit_of(match_byte as u32, k);
                }
                let hi = (1 + match_bit) << 8;
                assert(match_bit <= 1 ==> ((1 + match_bit) as u32) << 8u32 <= 512) by {
                    crate::bits::lemma_match_offset(match_bit, 0);
                }
                assert(match_bit <= 1 ==> ((1 + match_bit) as u32) << 8u32 == (1 + match_bit) * 256) by {
                    crate::bits::lemma_match_offset(match_bit, 0);
                }
                let idx = (hi + symbol) as usize;
                assert(match_bit <= 1 && symbol < 0x100 ==> (((1 + match_bit) as u32) << 8u32) + symbol
                    < 0x300) by {
                    crate::bits::lemma_match_offset(match_bit, symbol);
                }
                let llen = self.lit.len();
                bit = rc.decode_bit(&mut self.lit, base + idx);
                same = match_bit == bit;
            } else {
                let llen = self.lit.len();
                bit = rc.decode_bit(&mut self.lit, base + symbol as usize);
            }
            let os = symbol;
            proof {
                crate::bits::lemma_tree_u32(os, bit, (7 - k) as u32, 0);
                crate::bits::lemma_coder_words(0, os, bit);
                if ok {
                    assert(bit == b);
                    crate::bits::lemma_tree_node(su, (7 - k) as u32, kk as u32);
                }
            }
            symbol = (symbol << 1) | bit;
        }
        proof {
            if ok {
                crate::bits::lemma_tree_node(su, 0, 8);
                assert(rc.todo@ =~= rest0);
            }
            crate::bits::lemma_coder_words(0, symbol, 0);
        }
        (symbol - 0x100) as u8
    }

    /// Decodes the distance of a new match, given its raw length symbol.
    /// The back-offset is the result plus one; `0xFFFF_FFFF` is the
    /// end-of-stream marker. If the decoder follows a coding whose next
    /// decisions are those of `dist` in slot `slot`, the result is `dist`.
    pub fn decode_distance(
        &mut self,
        rc: &mut RangeDecoder<'_>,
        len_sym: usize,
        Ghost(dist): Ghost<u32>,
        Ghost(slot): Ghost<u32>,
    ) -> (r: u32)
        requires
            old(self).wf(),
            old(rc).wf(),
        ensures
            final(self).wf(),
            final(rc).wf(),
            final(rc).input == old(rc).input,
            final(rc).read_past >= old(rc).read_past,
            final(self).lc == old(self).lc && final(self).lp_mask == old(self).lp_mask && final(self).pb_mask
                == old(self).pb_mask,
            old(rc).live@ && slot_ok(dist, slot) && starts_with(
                old(rc).todo@,
                dist_ops(old(self).tables(), dist, slot, len_sym as nat),
            ) ==> final(rc).live@ && r == dist && final(rc).todo@ == old(rc).todo@.skip(
                dist_ops(old(self).tables(), dist, slot, len_sym as nat).len() as int,
            ) && final(rc).at@ == run(old(rc).at@, dist_ops(old(self).tables(), dist, slot, len_sym as nat))
                && final(self).tables() == dist_after(old(self).tables(), dist, slot, len_sym as nat),
    {
        let ghost t0 = self.tables();
        let ghost ops = dist_ops(t0, dist, slot, len_sym as nat);
        let ghost ok = rc.live@ && slot_ok(dist, slot) && starts_with(rc.todo@, ops);
        let ghost todo0 = rc.todo@;
        let ghost at0 = rc.at@;
        let len_state = if len_sym < NUM_LEN_TO_POS - 1 {
            len_sym
        } else {
            NUM_LEN_TO_POS - 1
        };
        let ghost head = tree_ops(t0.pos_slot, len_state * 64, 1, slot as nat, 6);
        let ghost tail = ops.skip(6);
        proof {
            lemma_tree_len(t0.pos_slot, len_state * 64, 1, slot as nat, 6);
            assert(len_state as nat == len_state_of(len_sym as nat));
            if ok {
                assert(ops =~= head + tail);
                lemma_starts_split(todo0, head, tail);
            }
        }
        assert((1usize << 6usize) == 64 && (1u32 << 6u32) == 64) by {
            crate::bits::lemma_shift_consts();
        }
        let pos_slot = rc.decode_bittree(&mut self.pos_slot, len_state * 64, 6, Ghost(slot as nat));
        if pos_slot < 4 {
            proof {
                if ok {
                    assert(tail.len() == 0);
                    assert(ops =~= head);
                }
            }
            return pos_slot;
        }
        assert(4 <= pos_slot < 64 ==> 2 <= (pos_slot >> 1u32) <= 31) by {
            crate::bits::lemma_slot_bits(pos_slot, 0, 0);
        }
        let num_direct = (pos_slot >> 1) - 1;
        let mut dist_v = (2 | (pos_slot & 1)) << num_direct;
        let ghost red: u32 = (dist - slot_base(slot)) as u32;
        proof {
            if ok {
                assert(pos_slot == slot);
                assert(dist >= 4);
                assert(dist_v == slot_base(slot));
                assert(red < (1u32 << num_direct));
            }
        }
        if pos_slot < END_POS_MODEL_INDEX {
            assert(dist_v >= pos_slot && dist_v - pos_slot + (1u32 << num_direct) <= 115 && num_direct
                <= 5 && dist_v + (1u32 << num_direct) <= 0x1_0000) by {
                crate::bits::lemma_slot_bits(pos_slot, num_direct, dist_v);
            }
            let base = (dist_v - pos_slot) as usize;
            assert((num_direct as usize) <= 5 ==> (1usize << num_direct as usize) == (1u32
                << num_direct) as usize) by {
                crate::bits::lemma_slot_bits(0, num_direct, 0);
            }
            proof {
                if ok {
                    assert(tail == rtree_ops(t0.spec_pos, slot_base(slot) - slot, 1, red as nat, 0, num_direct as nat));
                }
            }
            let r = rc.decode_bittree_reverse(&mut self.spec_pos, base, num_direct, Ghost(red as nat));
            dist_v = dist_v + r;
            proof {
                if ok {
                    lemma_rtree_len(t0.spec_pos, slot_base(slot) - slot, 1, red as nat, 0, num_direct as nat);
                    lemma_run_append(at0, head, tail);
                    assert(todo0.skip(6).skip(tail.len() as int) =~= todo0.skip(ops.len() as int));
                }
            }
        } else {
            assert(6 <= num_direct <= 30) by {
                crate::bits::lemma_slot_bits(pos_slot, num_direct, 0);
            }
            let ghost dpart = direct_ops((red >> 4u32) as nat, (num_direct - 4) as nat);
            let ghost apart = rtree_ops(t0.align, 0, 1, (red & 15u32) as nat, 0, 4);
            proof {
                super::interval::lemma_direct_len((red >> 4u32) as nat, (num_direct - 4) as nat);
                lemma_rtree_len(t0.align, 0, 1, (red & 15u32) as nat, 0, 4);
                if ok {
                    crate::bits::lemma_slot_bits(0, num_direct, red);
                    assert(ops =~= head + (dpart + apart));
                    assert(tail =~= dpart + apart);
                    lemma_starts_split(todo0.skip(6), dpart, apart);
                }
            }
            let d = rc.decode_direct_bits(num_direct - NUM_ALIGN_BITS, Ghost((red >> 4u32) as nat));
            assert((1usize << 4usize) == 16 && (1u32 << 4u32) == 16) by {
                crate::bits::lemma_shift_consts();
            }
            let a = rc.decode_bittree_reverse(&mut self.align, 0, NUM_ALIGN_BITS, Ghost((red & 15u32) as nat));
            assert(dist_v as u64 + (d << 4u32) as u64 + a as u64 <= 0xFFFF_FFFF) by (bit_vector)
                requires
                    6 <= num_direct <= 30,
                    d < (1u32 << ((num_direct - 4u32) as u32)),
                    a < 16,
                    dist_v == (2 | (pos_slot & 1)) << num_direct,
            ;
            proof {
                if ok {
                    assert(d == red >> 4u32);
                    assert(a == red & 15u32);
                    crate::bits::lemma_slot_bits(0, num_direct, d);
                    lemma_run_append(at0, head, dpart + apart);
                    lemma_run_append(run(at0, head), dpart, apart);
                    assert(todo0.skip(6).skip(dpart.len() as int).skip(4) =~= todo0.skip(ops.len() as int));
                }
            }
            dist_v = dist_v + (d << NUM_ALIGN_BITS);
            dist_v = dist_v + a;
        }
        dist_v
    }

    /// Codes the `is_match` bit of state `st` and pos state `ps`.
    pub fn encode_is_match(&mut self, rc: &mut RangeEncoder, st: usize, ps: usize, bit: u32)
        requires
            old(self).wf(),
            old(rc).wf(),
            old(rc).roomy(1),
            st < NUM_STATES,
            ps < POS_STATES_MAX,
            bit <= 1,
        ensures
            final(self).wf(),
            final(rc).wf(),
            final(self).lc == old(self).lc && final(self).lp_mask == old(self).lp_mask && final(self).pb_mask
                == old(self).pb_mask,
            final(rc).interval() == step(old(rc).interval(), RcOp::Bit { p: old(self).is_match@[st * 16 + ps], bit }),
            op_ok(RcOp::Bit { p: old(self).is_match@[st * 16 + ps], bit }),
            final(rc).shifts() <= old(rc).shifts() + 1,
            final(self).tables() == (Tables {
                is_match: old(self).is_match@.update(st * 16 + ps, adapt(old(self).is_match@[st * 16 + ps], bit)),
                ..old(self).tables()
            }),
            final(rc).out@.len() >= old(rc).out@.len(),
            final(rc).out@.subrange(0, old(rc).out@.len() as int) == old(rc).out@,
    {
        rc.encode_bit(&mut self.is_match, st * 16 + ps, bit);
    }

    /// Codes the `is_rep` bit of state `st`.
    pub fn encode_is_rep(&mut self, rc: &mut RangeEncoder, st: usize, bit: u32)
        requires
            old(self).wf(),
            old(rc).wf(),
            old(rc).roomy(1),
            st < NUM_STATES,
            bit <= 1,
        ensures
            final(self).wf(),
            final(rc).wf(),
            final(self).lc == old(self).lc && final(self).lp_mask == old(self).lp_mask && final(self).pb_mask
                == old(self).pb_mask,
            final(rc).interval() == step(old(rc).interval(), RcOp::Bit { p: old(self).is_rep@[st as int], bit }),
            op_ok(RcOp::Bit { p: old(self).is_rep@[st as int], bit }),
            final(rc).shifts() <= old(rc).shifts() + 1,
            final(self).tables() == (Tables {
                is_rep: old(self).is_rep@.update(st as int, adapt(old(self).is_rep@[st as int], bit)),
                ..old(self).tables()
            }),
            final(rc).out@.len() >= old(rc).out@.len(),
            final(rc).out@.subrange(0, old(rc).out@.len() as int) == old(rc).out@,
    {
        rc.encode_bit(&mut self.is_rep, st, bit);
    }

    /// Codes the raw length symbol of a new match.
    pub fn encode_new_len(&mut self, rc: &mut RangeEncoder, len_sym: usize, ps: usize)
        requires
            old(self).wf(),
            old(rc).wf(),
            old(rc).roomy(10),
            len_sym < 272,
            ps < POS_STATES_MAX,
        ensures
            final(self).wf(),
            final(rc).wf(),
            final(self).lc == old(self).lc && final(self).lp_mask == old(self).lp_mask && final(self).pb_mask
                == old(self).pb_mask,
            final(rc).interval() == run(old(rc).interval(), len_ops(old(self).tables().len, len_sym as nat, ps as nat)),
            ops_ok(len_ops(old(self).tables().len, len_sym as nat, ps as nat)),
            final(rc).shifts() <= old(rc).shifts() + 10,
            final(self).tables() == (Tables {
                len: len_after(old(self).tables().len, len_sym as nat, ps as nat),
                ..old(self).tables()
            }),
            final(rc).out@.len() >= old(rc).out@.len(),
            final(rc).out@.subrange(0, old(rc).out@.len() as int) == old(rc).out@,
    {
        self.len_coder.encode(rc, len_sym, ps);
        proof {
            super::interval::lemma_run(old(rc).interval(), len_ops(old(self).tables().len, len_sym as nat, ps as nat));
        }
    }

    /// Encodes one literal byte, the mirror of [`LzmaModel::decode_literal`].
    pub fn encode_literal(
        &mut self,
        rc: &mut RangeEncoder,
        total_pos: usize,
        prev_byte: u8,
        state: usize,
        byte: u8,
        match_byte: u8,
    )
        requires
            old(self).wf(),
            old(rc).wf(),
            old(rc).roomy(8),
        ensures
            final(self).wf(),
            final(rc).wf(),
            final(self).lc == old(self).lc && final(self).lp_mask == old(self).lp_mask && final(self).pb_mask
                == old(self).pb_mask,
            ({
                let base = lit_ctx(old(self).lc, old(self).lp_mask, total_pos, prev_byte) * 0x300;
                let ops = lit_ops(old(self).lit@, base, 1, byte as nat, match_byte as nat, state >= 7, 8);
                &&& final(rc).interval() == run(old(rc).interval(), ops)
                &&& ops_ok(ops)
                &&& ops.len() == 8
                &&& final(self).tables() == (Tables {
                    lit: lit_probs(old(self).lit@, base, 1, byte as nat, match_byte as nat, state >= 7, 8),
                    ..old(self).tables()
                })
            }),
            final(rc).shifts() <= old(rc).shifts() + 8,
            final(rc).out@.len() >= old(rc).out@.len(),
            final(rc).out@.subrange(0, old(rc).out@.len() as int) == old(rc).out@,
    {
        let ls = self.lit_state(total_pos, prev_byte);
        let llen = self.lit.len();
        let base = ls * 0x300;
        let ghost t0 = self.tables();
        let ghost l0 = lit_ops(self.lit@, base as int, 1, byte as nat, match_byte as nat, state >= 7, 8);
        let ghost target = run(rc.interval(), l0);
        let ghost ptarget = lit_probs(self.lit@, base as int, 1, byte as nat, match_byte as nat, state >= 7, 8);
        let mut symbol: u32 = 1;
        let mut same = state >= 7;
        let mut k: u32 = 8;
        assert((1u32 << 1u32) == 2 && (1u32 << 0u32) == 1) by {
            crate::bits::lemma_shift_consts();
        }
        let ghost o = rc.out@;
        proof {
            lemma_lit_len(self.lit@, base as int, 1, byte as nat, match_byte as nat, state >= 7, 8);
        }
        while k > 0
            invariant
                self.wf(),
                rc.wf(),
                rc.roomy(k as nat),
                rc.out@.len() >= o.len(),
                rc.out@.subrange(0, o.len() as int) == o,
                o == old(rc).out@,
                base + 0x300 <= self.lit@.len(),
                k <= 8,
                1 <= symbol < (1u32 << (8 - k + 1) as u32),
                self.lc == old(self).lc && self.lp_mask == old(self).lp_mask && self.pb_mask == old(self).pb_mask,
                self.tables() == (Tables { lit: self.lit@, ..t0 }),
                run(rc.interval(), lit_ops(self.lit@, base as int, symbol as int, byte as nat, match_byte as nat, same, k as nat))
                    == target,
                lit_probs(self.lit@, base as int, symbol as int, byte as nat, match_byte as nat, same, k as nat)
                    == ptarget,
                ops_ok(lit_ops(self.lit@, base as int, symbol as int, byte as nat, match_byte as nat, same, k as nat))
                    ==> ops_ok(l0),
            decreases k,
        {
            assert(1 <= symbol < (1u32 << (8 - k + 1) as u32) && 0 < k <= 8 ==> symbol < 0x100)
                by (bit_vector);
            k = k - 1;
            let bit = ((byte as u32) >> k) & 1;
            assert(((byte as u32) >> k) & 1u32 <= 1) by {
                crate::bits::lemma_bit_of(byte as u32, k);
            }
            let ghost j = k as nat;
            let ghost mbit = bit_at(match_byte as nat, j);
            let ghost i: int = if same {
                base + 0x100 * (1 + mbit) + symbol
            } else {
                base + symbol
            };
            let ghost op = RcOp::Bit { p: self.lit@[i], bit };
            let ghost t2 = self.lit@.update(i, adapt(self.lit@[i], bit));
            let ghost inner = lit_ops(t2, base as int, 2 * symbol + bit, byte as nat, match_byte as nat, same && mbit == bit, j);
            let ghost s0 = rc.interval();
            proof {
                vstd::bits::lemma_u32_shr_is_div(byte as u32, k);
                crate::bits::lemma_coder_words((byte as u32) >> k, 0, 0);
                vstd::bits::lemma_u32_shr_is_div(match_byte as u32, k);
                crate::bits::lemma_coder_words((match_byte as u32) >> k, 0, 0);
                assert(bit == bit_at(byte as nat, j));
                assert(lit_ops(self.lit@, base as int, symbol as int, byte as nat, match_byte as nat, same, (k + 1) as nat)
                    == seq![op] + inner);
                assert(lit_probs(self.lit@, base as int, symbol as int, byte as nat, match_byte as nat, same, (k + 1) as nat)
                    == lit_probs(t2, base as int, 2 * symbol + bit, byte as nat, match_byte as nat, same && mbit == bit, j));
                lemma_run_cons(s0, op, inner);
            }
            let ghost m = rc.out@;
            if same {
                let match_bit = ((match_byte as u32) >> k) & 1;
                assert(((match_byte as u32) >> k) & 1u32 <= 1) by {
                    crate::bits::lemma_bit_of(match_byte as u32, k);
                }
                let hi = (1 + match_bit) << 8;
                assert(match_bit <= 1 ==> ((1 + match_bit) as u32) << 8u32 <= 512) by {
                    crate::bits::lemma_match_offset(match_bit, 0);
                }
                assert(match_bit <= 1 ==> ((1 + match_bit) as u32) << 8u32 == (1 + match_bit) * 256) by {
                    crate::bits::lemma_match_offset(match_bit, 0);
                }
                let idx = (hi + symbol) as usize;
                assert(match_bit <= 1 && symbol < 0x100 ==> (((1 + match_bit) as u32) << 8u32) + symbol
                    < 0x300) by {
                    crate::bits::lemma_match_offset(match_bit, symbol);
                }
                let llen = self.lit.len();
                rc.encode_bit(&mut self.lit, base + idx, bit);
                same = match_bit == bit;
            } else {
                let llen = self.lit.len();
                rc.encode_bit(&mut self.lit, base + symbol as usize, bit);
            }
            proof {
                if ops_ok(inner) {
                    lemma_ops_ok_cons(op, inner);
                }
            }
            assert(rc.out@.subrange(0, o.len() as int) == rc.out@.subrange(0, m.len() as int).subrange(0, o.len() as int));
            let os = symbol;
            proof {
                crate::bits::lemma_coder_words(0, os, bit);
            }
            symbol = (symbol << 1) | bit;
            assert(1 <= os < (1u32 << (8 - k) as u32) && bit <= 1 && k < 8 ==> 1 <= ((os << 1u32)
                | bit) < (1u32 << (8 - k + 1) as u32)) by (bit_vector);
        }
        proof {
            super::interval::lemma_run(old(rc).interval(), l0);
        }
    }

    /// Encodes the distance of a new match (the back-offset minus one),
    /// the mirror of [`LzmaModel::decode_distance`]; returns its slot.
    pub fn encode_distance(&mut self, rc: &mut RangeEncoder, dist: u32, len_sym: usize) -> (slot: u32)
        requires
            old(self).wf(),
            old(rc).wf(),
            old(rc).roomy(36),
            dist < 0x1000_0000,
        ensures
            final(self).wf(),
            final(rc).wf(),
            final(self).lc == old(self).lc && final(self).lp_mask == old(self).lp_mask && final(self).pb_mask
                == old(self).pb_mask,
            slot_ok(dist, slot),
            final(rc).interval() == run(old(rc).interval(), dist_ops(old(self).tables(), dist, slot, len_sym as nat)),
            ops_ok(dist_ops(old(self).tables(), dist, slot, len_sym as nat)),
            final(rc).shifts() <= old(rc).shifts() + 36,
            final(self).tables() == dist_after(old(self).tables(), dist, slot, len_sym as nat),
            final(rc).out@.len() >= old(rc).out@.len(),
            final(rc).out@.subrange(0, old(rc).out@.len() as int) == old(rc).out@,
    {
        let len_state = if len_sym < NUM_LEN_TO_POS - 1 {
            len_sym
        } else {
            NUM_LEN_TO_POS - 1
        };
        let pos_slot = dist_slot(dist);
        let ghost t0 = self.tables();
        let ghost s0 = rc.interval();
        let ghost head = tree_ops(t0.pos_slot, len_state * 64, 1, pos_slot as nat, 6);
        let ghost o = rc.out@;
        proof {
            assert(len_state as nat == len_state_of(len_sym as nat));
            lemma_tree_len(t0.pos_slot, len_state * 64, 1, pos_slot as nat, 6);
        }
        assert((1usize << 6usize) == 64) by {
            crate::bits::lemma_shift_consts();
        }
        rc.encode_bittree(&mut self.pos_slot, len_state * 64, pos_slot, 6);
        let ghost s1 = rc.interval();
        if pos_slot < 4 {
            proof {
                super::interval::lemma_run(s0, head);
            }
            return pos_slot;
        }
        let ghost m1 = rc.out@;
        assert(4 <= pos_slot < 64 ==> 2 <= (pos_slot >> 1u32) <= 31) by {
            crate::bits::lemma_slot_bits(pos_slot, 0, 0);
        }
        let num_direct = (pos_slot >> 1) - 1;
        let base = (2 | (pos_slot & 1)) << num_direct;
        let reduced = dist - base;
        proof {
            assert(base == slot_base(pos_slot));
            assert(dist >= 4);
        }
        if pos_slot < END_POS_MODEL_INDEX {
            assert(base >= pos_slot && base - pos_slot + (1u32 << num_direct) <= 115 && num_direct
                <= 5) by {
                crate::bits::lemma_slot_bits(pos_slot, num_direct, base);
            }
            assert((num_direct as usize) <= 5 ==> (1usize << num_direct as usize) == (1u32
                << num_direct) as usize) by {
                crate::bits::lemma_slot_bits(0, num_direct, 0);
            }
            rc.encode_bittree_reverse(&mut self.spec_pos, (base - pos_slot) as usize, reduced, num_direct);
            proof {
                let tl = rtree_ops(t0.spec_pos, slot_base(pos_slot) - pos_slot, 1, reduced as nat, 0, num_direct as nat);
                lemma_run_append(s0, head, tl);
                super::interval::lemma_ops_ok_append(head, tl);
                lemma_rtree_len(t0.spec_pos, slot_base(pos_slot) - pos_slot, 1, reduced as nat, 0, num_direct as nat);
                super::interval::lemma_run(s0, head + tl);
            }
        } else {
            assert(6 <= num_direct <= 30) by {
                crate::bits::lemma_slot_bits(pos_slot, num_direct, 0);
            }
            proof {
                assert(num_direct <= 26) by (bit_vector)
                    requires
                        dist < 0x1000_0000,
                        dist >= ((2u32 | (pos_slot & 1u32)) << (((pos_slot >> 1u32) - 1u32) as u32)),
                        num_direct == (pos_slot >> 1u32) - 1u32,
                        6 <= num_direct <= 30,
                ;
            }
            rc.encode_direct_bits(reduced >> NUM_ALIGN_BITS, num_direct - NUM_ALIGN_BITS);
            let ghost m2 = rc.out@;
            let ghost s2 = rc.interval();
            assert((1usize << 4usize) == 16) by {
                crate::bits::lemma_shift_consts();
            }
            rc.encode_bittree_reverse(&mut self.align, 0, reduced & 15, NUM_ALIGN_BITS);
            assert(rc.out@.subrange(0, m1.len() as int) == rc.out@.subrange(0, m2.len() as int).subrange(0, m1.len() as int));
            proof {
                let dp = direct_ops((reduced >> 4u32) as nat, (num_direct - 4) as nat);
                let ap = rtree_ops(t0.align, 0, 1, (reduced & 15u32) as nat, 0, 4);
                lemma_run_append(s0, head, dp + ap);
                lemma_run_append(s1, dp, ap);
                super::interval::lemma_ops_ok_append(dp, ap);
                super::interval::lemma_ops_ok_append(head, dp + ap);
                assert(head + dp + ap =~= head + (dp + ap));
                super::interval::lemma_direct_len((reduced >> 4u32) as nat, (num_direct - 4) as nat);
                lemma_rtree_len(t0.align, 0, 1, (reduced & 15u32) as nat, 0, 4);
                super::interval::lemma_run(s0, head + (dp + ap));
            }
        }
        assert(rc.out@.subrange(0, o.len() as int) == rc.out@.subrange(0, m1.len() as int).subrange(0, o.len() as int));
        pos_slot
    }
}

/// The distance slot of `dist`: the distance itself below 4, and otherwise
/// twice the position of its top bit plus the bit below it.
pub fn dist_slot(dist: u32) -> (slot: u32)
    requires
        dist < 0x1000_0000,
    ensures
        slot < 64,
        slot < 4 ==> slot == dist,
        slot >= 4 ==> ((2 | (slot & 1)) << (((slot >> 1) - 1) as u32)) <= dist,
        slot_ok(dist, slot),
{
    if dist < 4 {
        return dist;
    }
    let mut top: u32 = 1;
    assert(dist >= 4 ==> (dist >> 1u32) != 0) by (bit_vector);
    while (dist >> (top + 1)) != 0
        invariant
            1 <= top <= 27,
            dist < 0x1000_0000,
            dist >= 4,
            (dist >> top) != 0,
        decreases 31 - top,
    {
        assert(dist < 0x1000_0000 && (dist >> (top + 1)) != 0 ==> top + 1 <= 27) by (bit_vector);
        top = top + 1;
    }
    let slot = (top << 1) | ((dist >> (top - 1)) & 1);
    assert(1 <= top <= 27 && (dist >> top) != 0 && (dist >> (top + 1)) == 0 && dist >= 4 && slot
        == (top << 1u32) | ((dist >> ((top - 1) as u32)) & 1u32) ==> slot < 64 && slot >= 4 && ((2 | (slot
        & 1)) << (((slot >> 1u32) - 1) as u32)) <= dist && dist - ((2 | (slot & 1)) << (((slot >> 1u32)
        - 1) as u32)) < (1u32 << (((slot >> 1u32) - 1) as u32))) by (bit_vector);
    slot
}

} // verus!
