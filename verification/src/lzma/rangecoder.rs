//! The LZMA range coder: the normalized 11-bit-probability arithmetic coder
//! under every LZMA symbol. The decoder and encoder mirror each other.
use super::interval::{
    adapt, be, bit_at, codes, starts_with, direct_ops, op_ok, ops_ok, rtree_ops, rtree_probs, run, split, start, step,
    tree_ops, tree_probs, valid,
    Interval, RcOp, renorm,
};
use crate::snappy::pow256;
use vstd::prelude::*;

verus! {

/// The range is renormalized whenever it drops below this.
pub const TOP: u32 = 0x100_0000;

/// Every adaptive probability stays inside `[31, 2017]`: the updates move a
/// probability a thirty-second of the way towards 0 or 2048, and from this
/// band they never leave it. That band is what keeps the range large enough
/// that one renormalization always restores it.
pub open spec fn prob_ok(p: u16) -> bool {
    31 <= p <= 2017
}

/// All probabilities of a table are in their band.
pub open spec fn probs_ok(v: Seq<u16>) -> bool {
    forall|i: int| 0 <= i < v.len() ==> prob_ok(#[trigger] v[i])
}

/// A table of `n` fresh probabilities (each one half).
pub fn new_probs(n: usize) -> (v: Vec<u16>)
    ensures
        v@.len() == n,
        probs_ok(v@),
        forall|i: int| 0 <= i < n ==> v@[i] == 1024,
{
    let mut v: Vec<u16> = Vec::new();
    while v.len() < n
        invariant
            v@.len() <= n,
            forall|i: int| 0 <= i < v@.len() ==> v@[i] == 1024,
        decreases n - v.len(),
    {
        v.push(1024);
    }
    v
}

/// The probability after coding a 0 under `p`.
pub open spec fn prob_after_zero(p: u16) -> u16 {
    (p + ((2048 - p) as u16 >> 5u16)) as u16
}

/// The probability after coding a 1 under `p`.
pub open spec fn prob_after_one(p: u16) -> u16 {
    (p - (p >> 5u16)) as u16
}

proof fn lemma_prob_updates(p: u16)
    requires
        prob_ok(p),
    ensures
        prob_ok(prob_after_zero(p)),
        prob_ok(prob_after_one(p)),
{
    assert(31 <= p <= 2017 ==> 31 <= (p + ((2048 - p) as u16 >> 5u16)) as u16 <= 2017)
        by {
            crate::bits::lemma_prob_bits(p);
        }
    assert(31 <= p <= 2017 ==> 31 <= (p - (p >> 5u16)) as u16 <= 2017) by {
            crate::bits::lemma_prob_bits(p);
        }
}

// --- decoder ---

/// The next decision of `ops` is a bit under probability `p`.
pub open spec fn next_bit_under(ops: Seq<RcOp>, p: u16) -> bool {
    ops.len() > 0 && (ops[0] matches RcOp::Bit { p: q, .. } && q == p)
}

/// The bit a decision codes.
pub open spec fn op_bit(op: RcOp) -> u32 {
    match op {
        RcOp::Bit { bit, .. } => bit,
        RcOp::Direct { bit } => bit,
    }
}

/// Reads the range-coded stream and undoes the encoder's arithmetic.
///
/// Alongside the stream it may follow, as ghost state, the decisions that
/// coded it: `todo` is what remains of them and `at` the interval they
/// start from. While `live`, every decision read back is the one coded.
pub struct RangeDecoder<'a> {
    pub input: &'a [u8],
    pub pos: usize,
    pub range: u32,
    pub code: u32,
    /// Count (saturating) of bytes requested past the end of `input`. A
    /// complete stream never needs any; a truncated one does.
    pub read_past: usize,
    pub live: Ghost<bool>,
    pub at: Ghost<Interval>,
    pub todo: Ghost<Seq<RcOp>>,
}

impl<'a> RangeDecoder<'a> {
    /// The decoder sits at interval `at` of the coding of `todo` into the
    /// stream: the window it has read is that interval's, above its low end.
    pub open spec fn synced(&self) -> bool {
        &&& valid(self.at@)
        &&& ops_ok(self.todo@)
        &&& codes(self.input@, self.at@, self.todo@)
        &&& self.pos == self.at@.shifts + 5
        &&& self.range == self.at@.range
        &&& self.code == be(self.input@.take(self.pos as int)) - self.at@.low
        &&& self.read_past == 0
    }

    /// The decoder's standing invariant: the range has been renormalized,
    /// and a decoder that follows a coding is in step with it.
    pub open spec fn wf(&self) -> bool {
        &&& self.range >= TOP
        &&& self.pos <= self.input@.len()
        &&& self.live@ ==> self.synced()
    }

    /// Starts decoding `input`. The first byte must be 0 (the encoder's cache
    /// always starts there); the next four are the initial code, big-endian.
    /// The decoder follows `ops` if `input` is their coding.
    pub fn new(input: &'a [u8], Ghost(ops): Ghost<Seq<RcOp>>) -> (r: Option<Self>)
        ensures
            (input@.len() < 5 || input@[0] != 0) ==> r is None,
            !(input@.len() < 5 || input@[0] != 0) ==> (r matches Some(d) && d.wf() && d.input@
                == input@ && d.pos == 5 && d.read_past == 0),
            ops_ok(ops) && codes(input@, start(), ops) ==> (r matches Some(d) && d.live@ && d.at@
                == start() && d.todo@ == ops),
    {
        let ghost follows = ops_ok(ops) && codes(input@, start(), ops);
        proof {
            if follows {
                crate::lzma::interval::lemma_run(start(), ops);
                let f = run(start(), ops);
                assert(pow256(f.shifts + 4) == pow256(f.shifts) * pow256(4)) by {
                    crate::lzma::interval::lemma_pow256_add(f.shifts, 4);
                }
                assert(pow256(4) == 0x1_0000_0000) by {
                    reveal_with_fuel(pow256, 5);
                }
                assert(((input@.len() - 1) as nat) == f.shifts + 4);
                crate::lzma::interval::lemma_first_zero(input@);
            }
        }
        if input.len() < 5 || input[0] != 0 {
            return None;
        }
        let code = (input[1] as u32) * 0x100_0000 + (input[2] as u32) * 0x1_0000 + (input[3] as u32)
            * 0x100 + input[4] as u32;
        proof {
            let b = input@;
            assert(b.take(1).drop_last() =~= Seq::<u8>::empty());
            assert(be(b.take(1).drop_last()) == 0);
            assert(b.take(2).drop_last() =~= b.take(1));
            assert(b.take(3).drop_last() =~= b.take(2));
            assert(b.take(4).drop_last() =~= b.take(3));
            assert(b.take(5).drop_last() =~= b.take(4));
            assert(be(b.take(1)) == b[0] as nat);
            assert(be(b.take(2)) == be(b.take(1)) * 256 + b[1] as nat);
            assert(be(b.take(3)) == be(b.take(2)) * 256 + b[2] as nat);
            assert(be(b.take(4)) == be(b.take(3)) * 256 + b[3] as nat);
            assert(be(b.take(5)) == be(b.take(4)) * 256 + b[4] as nat);
            assert(be(b.take(5)) == code);
            assert(pow256(0) == 1);
        }
        Some(
            RangeDecoder {
                input,
                pos: 5,
                range: 0xFFFF_FFFF,
                code,
                read_past: 0,
                live: Ghost(follows),
                at: Ghost(start()),
                todo: Ghost(ops),
            },
        )
    }

    /// The next stream byte, or 0 (counted) once the stream is exhausted.
    fn next_byte(&mut self) -> (b: u32)
        requires
            old(self).pos <= old(self).input@.len(),
        ensures
            final(self).input == old(self).input,
            final(self).range == old(self).range,
            final(self).code == old(self).code,
            final(self).live == old(self).live,
            final(self).at == old(self).at,
            final(self).todo == old(self).todo,
            old(self).pos < old(self).input@.len() ==> b == old(self).input@[old(self).pos as int]
                && final(self).pos == old(self).pos + 1 && final(self).read_past == old(self).read_past,
            old(self).pos >= old(self).input@.len() ==> b == 0 && final(self).pos == old(self).pos
                && final(self).read_past >= 1 && final(self).read_past >= old(self).read_past,
            b < 256,
            final(self).pos <= final(self).input@.len(),
    {
        if self.pos < self.input.len() {
            let b = self.input[self.pos] as u32;
            self.pos = self.pos + 1;
            b
        } else {
            if self.read_past < usize::MAX {
                self.read_past = self.read_past + 1;
            }
            0
        }
    }

    /// Renormalizes: shifts in one more byte if the range has fallen below
    /// `TOP`.
    fn normalize(&mut self)
        requires
            old(self).pos <= old(self).input@.len(),
            old(self).range >= 0x2_0000,
        ensures
            final(self).input == old(self).input,
            final(self).live == old(self).live,
            final(self).at == old(self).at,
            final(self).todo == old(self).todo,
            final(self).range >= TOP,
            final(self).pos <= final(self).input@.len(),
            final(self).read_past >= old(self).read_past,
            old(self).range >= TOP ==> *final(self) == *old(self),
            old(self).range < TOP ==> final(self).range == old(self).range * 256,
            old(self).range < TOP && old(self).pos < old(self).input@.len() ==> final(self).pos == old(self).pos + 1 && final(self).read_past == old(self).read_past && (old(self).code < 0x100_0000
                ==> final(self).code == old(self).code * 256 + old(self).input@[old(self).pos as int]),
    {
        if self.range < TOP {
            let r = self.range;
            assert(r < 0x100_0000 && r >= 0x2_0000 ==> (r << 8u32) >= 0x100_0000) by {
                crate::bits::lemma_range_bits(r, 0);
            }
            proof {
                crate::bits::lemma_coder_words(r, 0, 0);
            }
            self.range = self.range << 8;
            let c = self.code;
            let b = self.next_byte();
            proof {
                crate::bits::lemma_coder_words(0, c, b);
            }
            self.code = (self.code << 8) | b;
        }
    }

    /// The window property at the interval before a renormalization.
    proof fn lemma_pre_window(&self, t: Interval)
        requires
            self.synced(),
            self.todo@.len() > 0,
            op_ok(self.todo@[0]),
            step(self.at@, self.todo@[0]) == renorm(t),
            t.shifts == self.at@.shifts,
            t.range >= 1,
        ensures
            t.low <= be(self.input@.take(self.pos as int)) < t.low + t.range,
            t.range < TOP ==> self.pos < self.input@.len(),
    {
        let s = self.at@;
        let op = self.todo@[0];
        let rest = self.todo@.drop_first();
        let s2 = step(s, op);
        crate::lzma::interval::lemma_step(s, op);
        assert(ops_ok(rest)) by {
            assert forall|i: int| 0 <= i < rest.len() implies crate::lzma::interval::op_ok(
                #[trigger] rest[i],
            ) by {
                assert(rest[i] == self.todo@[i + 1]);
            }
        }
        assert(run(s, self.todo@) == run(s2, rest));
        crate::lzma::interval::lemma_window(self.input@, s2, rest);
        let b = self.input@;
        let n = self.pos as int;
        if t.range < TOP {
            assert(s2.shifts == s.shifts + 1);
            crate::lzma::interval::lemma_be_take_next(b, n);
            let w = be(b.take(n));
            assert(t.low <= w < t.low + t.range) by (nonlinear_arith)
                requires
                    t.low * 256 <= w * 256 + b[n] as int,
                    w * 256 + (b[n] as int) < t.low * 256 + t.range * 256,
                    0 <= b[n] < 256,
            ;
        }
    }

    /// Decodes one bit under the adaptive probability `probs[i]`, updating it.
    pub fn decode_bit(&mut self, probs: &mut Vec<u16>, i: usize) -> (bit: u32)
        requires
            old(self).wf(),
            i < old(probs)@.len(),
            probs_ok(old(probs)@),
        ensures
            final(self).wf(),
            final(self).input == old(self).input,
            final(self).read_past >= old(self).read_past,
            bit <= 1,
            final(probs)@ == old(probs)@.update(i as int, adapt(old(probs)@[i as int], bit)),
            probs_ok(final(probs)@),
            old(self).live@ && next_bit_under(old(self).todo@, old(probs)@[i as int]) ==> final(self).live@ && bit == op_bit(old(self).todo@[0]) && final(self).todo@ == old(self).todo@.drop_first() && final(self).at@ == step(old(self).at@, old(self).todo@[0]),
    {
        let p = probs[i];
        proof {
            lemma_prob_updates(p);
        }
        let ghost ok = self.live@ && next_bit_under(self.todo@, p);
        let ghost s = self.at@;
        let ghost todo = self.todo@;
        let r = self.range;
        let q = r >> 11;
        assert(q == r / 2048) by {
            crate::bits::lemma_range_bits(r, q);
        }
        assert(q * (p as u32) <= r - q * 31 && q * (p as u32) >= 0x2_0000) by (nonlinear_arith)
            requires
                q == r / 2048,
                r >= 0x100_0000,
                31 <= p <= 2017,
        ;
        let bound = q * (p as u32);
        assert(((2048 - p) as u16) >> 5u16 <= 64 && p >> 5u16 <= p) by {
            crate::bits::lemma_prob_bits(p);
        }
        let ghost c0 = self.code;
        let ghost w = be(self.input@.take(self.pos as int));
        proof {
            if ok {
                let op = todo[0];
                assert(op_ok(op));
                let b = op_bit(op);
                let t = if b == 0 {
                    Interval { low: s.low, range: bound as int, shifts: s.shifts }
                } else {
                    Interval { low: s.low + bound, range: s.range - bound, shifts: s.shifts }
                };
                assert(split(s.range, p) == bound as int);
                assert(step(s, op) == renorm(t));
                self.lemma_pre_window(t);
                assert(b == 0 <==> c0 < bound);
            }
        }
        let bit;
        if self.code < bound {
            self.range = bound;
            probs.set(i, p + ((2048 - p) >> 5));
            bit = 0;
        } else {
            self.range = self.range - bound;
            self.code = self.code - bound;
            probs.set(i, p - (p >> 5));
            bit = 1;
        }
        assert forall|j: int| 0 <= j < probs@.len() implies prob_ok(#[trigger] probs@[j]) by {
            if j != i {
                assert(probs@[j] == old(probs)@[j]);
            }
        }
        let ghost t = Interval { low: w - self.code, range: self.range as int, shifts: s.shifts };
        proof {
            if ok {
                assert(step(s, todo[0]) == renorm(t));
                assert(self.code < self.range);
            }
        }
        let ghost pos0 = self.pos;
        self.normalize();
        self.live = Ghost(ok);
        self.at = Ghost(if ok { step(s, todo[0]) } else { self.at@ });
        self.todo = Ghost(if ok { todo.drop_first() } else { self.todo@ });
        proof {
            if ok {
                let s2 = step(s, todo[0]);
                crate::lzma::interval::lemma_step(s, todo[0]);
                let rest = todo.drop_first();
                assert(ops_ok(rest)) by {
                    assert forall|k: int| 0 <= k < rest.len() implies crate::lzma::interval::op_ok(
                        #[trigger] rest[k],
                    ) by {
                        assert(rest[k] == todo[k + 1]);
                    }
                }
                assert(run(s, todo) == run(s2, rest));
                if t.range < TOP {
                    crate::lzma::interval::lemma_be_take_next(self.input@, pos0 as int);
                    assert(self.input@.take(pos0 + 1) == self.input@.take(self.pos as int));
                }
                assert(self.synced());
            }
        }
        bit
    }

    /// Decodes `num` bits at a fixed probability of one half, most
    /// significant first. If the decoder follows a coding whose next
    /// decisions are those of `v`'s bits, the result is `v`.
    pub fn decode_direct_bits(&mut self, num: u32, Ghost(v): Ghost<nat>) -> (res: u32)
        requires
            old(self).wf(),
            num <= 26,
        ensures
            final(self).wf(),
            final(self).input == old(self).input,
            final(self).read_past >= old(self).read_past,
            res < (1u32 << num),
            old(self).live@ && v < (1u32 << num) && starts_with(old(self).todo@, direct_ops(v, num as nat))
                ==> final(self).live@ && res == v && final(self).todo@ == old(self).todo@.skip(num as int)
                && final(self).at@ == run(old(self).at@, direct_ops(v, num as nat)),
    {
        let ghost ok = self.live@ && v < (1u32 << num) && starts_with(self.todo@, direct_ops(v, num as nat));
        let ghost rest0 = self.todo@.skip(num as int);
        let ghost target = run(self.at@, direct_ops(v, num as nat));
        let ghost vu = v as u32;
        proof {
            crate::lzma::interval::lemma_direct_len(v, num as nat);
            if ok {
                assert(self.todo@ =~= direct_ops(v, num as nat) + rest0);
            }
            crate::bits::lemma_low_bits_acc(vu, num, num);
        }
        self.live = Ghost(ok);
        let mut res: u32 = 0;
        let mut k: u32 = 0;
        assert(0u32 < (1u32 << 0u32)) by {
            crate::bits::lemma_shift_consts();
        }
        while k < num
            invariant
                self.wf(),
                self.input == old(self).input,
                self.read_past >= old(self).read_past,
                k <= num <= 26,
                res < (1u32 << k),
                self.live@ == ok,
                ok ==> self.todo@ == direct_ops(v, (num - k) as nat) + rest0,
                ok ==> run(self.at@, direct_ops(v, (num - k) as nat)) == target,
                ok ==> res == (vu >> ((num - k) as u32)),
                ok ==> vu as nat == v && vu < (1u32 << num),
            decreases num - k,
        {
            let ghost j = (num - k - 1) as nat;
            let ghost s = self.at@;
            let ghost todo = self.todo@;
            let ghost op = RcOp::Direct { bit: bit_at(v, j) };
            let ghost rest = direct_ops(v, j) + rest0;
            let ghost w = be(self.input@.take(self.pos as int));
            let r = self.range;
            let c0 = self.code;
            proof {
                crate::bits::lemma_coder_words(r, 0, 0);
                if ok {
                    assert(direct_ops(v, (j + 1) as nat) == seq![op] + direct_ops(v, j));
                    crate::lzma::interval::lemma_cons_tail(op, direct_ops(v, j), rest0);
                    crate::lzma::interval::lemma_run_cons(s, op, direct_ops(v, j));
                    vstd::bits::lemma_u32_shr_is_div(vu, j as u32);
                    crate::bits::lemma_coder_words(vu >> (j as u32), 0, 0);
                    assert(bit_at(v, j) == (vu >> (j as u32)) & 1u32);
                    let h = s.range / 2;
                    let b = bit_at(v, j);
                    let t = if b == 0 {
                        Interval { low: s.low, range: h, shifts: s.shifts }
                    } else {
                        Interval { low: s.low + h, range: h, shifts: s.shifts }
                    };
                    assert(step(s, op) == renorm(t));
                    self.lemma_pre_window(t);
                    crate::bits::lemma_direct_bits(c0, r, 0, 0, 0);
                }
            }
            self.range = self.range >> 1;
            self.code = self.code.wrapping_sub(self.range);
            let c = self.code;
            let t = 0u32.wrapping_sub(c >> 31);
            assert(0u32.wrapping_sub(c >> 31u32) == 0 || 0u32.wrapping_sub(c >> 31u32) == 0xFFFF_FFFF)
                by {
                crate::bits::lemma_direct_bits(c, 0, 0, 0, 0);
            }
            self.code = self.code.wrapping_add(self.range & t);
            let ghost pos0 = self.pos;
            let ghost t_iv = Interval { low: w - self.code, range: self.range as int, shifts: s.shifts };
            proof {
                if ok {
                    assert(t.wrapping_add(1) == bit_at(v, j));
                    assert(step(s, op) == renorm(t_iv));
                    assert(self.code < self.range);
                }
            }
            self.normalize();
            let old_res = res;
            res = (res << 1).wrapping_add(t.wrapping_add(1));
            proof {
                crate::bits::lemma_direct_bits(0, 0, old_res, k, t);
                crate::bits::lemma_low_bits_acc(vu, j as u32, num);
            }
            self.at = Ghost(if ok { step(s, op) } else { self.at@ });
            self.todo = Ghost(if ok { rest } else { self.todo@ });
            proof {
                if ok {
                    let s2 = step(s, op);
                    crate::lzma::interval::lemma_step(s, op);
                    crate::lzma::interval::lemma_ops_ok_tail(todo);
                    assert(run(s, todo) == run(s2, rest));
                    if t_iv.range < TOP {
                        crate::lzma::interval::lemma_be_take_next(self.input@, pos0 as int);
                        assert(self.input@.take(pos0 + 1) == self.input@.take(self.pos as int));
                    }
                    assert(self.synced());
                }
            }
            k = k + 1;
        }
        proof {
            if ok {
                assert(self.todo@ =~= rest0);
                assert(direct_ops(v, 0) =~= Seq::<RcOp>::empty());
            }
        }
        res
    }

    /// Decodes a most-significant-bit-first tree of `num_bits` bits, whose
    /// probabilities are `probs[base + 1 ..= base + 2^num_bits - 1]`. If the
    /// decoder follows a coding whose next decisions are `sym`'s down this
    /// tree, the result is `sym`.
    pub fn decode_bittree(
        &mut self,
        probs: &mut Vec<u16>,
        base: usize,
        num_bits: u32,
        Ghost(sym): Ghost<nat>,
    ) -> (res: u32)
        requires
            old(self).wf(),
            1 <= num_bits <= 8,
            base + (1usize << num_bits) <= old(probs)@.len(),
            probs_ok(old(probs)@),
        ensures
            final(self).wf(),
            final(self).input == old(self).input,
            final(self).read_past >= old(self).read_past,
            final(probs)@.len() == old(probs)@.len(),
            probs_ok(final(probs)@),
            res < (1u32 << num_bits),
            old(self).live@ && sym < (1u32 << num_bits) && starts_with(
                old(self).todo@,
                tree_ops(old(probs)@, base as int, 1, sym, num_bits as nat),
            ) ==> final(self).live@ && res == sym && final(self).todo@ == old(self).todo@.skip(
                num_bits as int,
            ) && final(self).at@ == run(
                old(self).at@,
                tree_ops(old(probs)@, base as int, 1, sym, num_bits as nat),
            ) && final(probs)@ == tree_probs(old(probs)@, base as int, 1, sym, num_bits as nat),
    {
        let ghost t0 = tree_ops(probs@, base as int, 1, sym, num_bits as nat);
        let ghost ok = self.live@ && sym < (1u32 << num_bits) && starts_with(self.todo@, t0);
        let ghost rest0 = self.todo@.skip(num_bits as int);
        let ghost target = run(self.at@, t0);
        let ghost ptarget = tree_probs(probs@, base as int, 1, sym, num_bits as nat);
        let ghost su = sym as u32;
        proof {
            crate::lzma::interval::lemma_tree_len(probs@, base as int, 1, sym, num_bits as nat);
            if ok {
                assert(self.todo@ =~= t0 + rest0);
                crate::bits::lemma_tree_node(su, 0, num_bits);
            }
        }
        let mut m: u32 = 1;
        let mut k: u32 = 0;
        assert((1u32 << 0u32) == 1 && (1u32 << 1u32) == 2) by {
            crate::bits::lemma_shift_consts();
        }
        while k < num_bits
            invariant
                self.wf(),
                self.input == old(self).input,
                self.read_past >= old(self).read_past,
                probs@.len() == old(probs)@.len(),
                probs_ok(probs@),
                k <= num_bits <= 8,
                base + (1usize << num_bits) <= probs@.len(),
                (1u32 << k) <= m < (1u32 << (k + 1) as u32),
                ok ==> self.live@,
                ok ==> self.todo@ == tree_ops(probs@, base as int, m as int, sym, (num_bits - k) as nat)
                    + rest0,
                ok ==> run(self.at@, tree_ops(probs@, base as int, m as int, sym, (num_bits - k) as nat))
                    == target,
                ok ==> tree_probs(probs@, base as int, m as int, sym, (num_bits - k) as nat) == ptarget,
                ok ==> m == ((1u32 << k) | (su >> ((num_bits - k) as u32))),
                ok ==> su as nat == sym && su < (1u32 << num_bits),
            decreases num_bits - k,
        {
            assert((1u32 << k) <= m < (1u32 << (k + 1) as u32) && k < num_bits && num_bits <= 8
                ==> (m as usize) < (1usize << num_bits)) by {
                crate::bits::lemma_tree_u32(m, 0, k, num_bits);
            }
            assert((m as usize) < (1usize << num_bits));
            let plen = probs.len();
            assert(base + (m as usize) < plen);
            let ghost kk = (num_bits - k) as nat;
            let ghost j = (kk - 1) as nat;
            let ghost i = base as int + m as int;
            let ghost op = RcOp::Bit { p: probs@[i], bit: bit_at(sym, j) };
            let ghost t2 = probs@.update(i, adapt(probs@[i], bit_at(sym, j)));
            let ghost inner = tree_ops(t2, base as int, 2 * m + bit_at(sym, j), sym, j);
            let ghost s = self.at@;
            proof {
                if ok {
                    assert(tree_ops(probs@, base as int, m as int, sym, kk) == seq![op] + inner);
                    assert(tree_probs(probs@, base as int, m as int, sym, kk) == tree_probs(
                        t2,
                        base as int,
                        2 * m + bit_at(sym, j),
                        sym,
                        j,
                    ));
                    crate::lzma::interval::lemma_cons_tail(op, inner, rest0);
                    crate::lzma::interval::lemma_run_cons(s, op, inner);
                }
            }
            let b = self.decode_bit(probs, base + m as usize);
            let old_m = m;
            proof {
                crate::bits::lemma_tree_u32(old_m, 0, k, num_bits);
                crate::bits::lemma_coder_words(0, old_m, b);
                if ok {
                    vstd::bits::lemma_u32_shr_is_div(su, j as u32);
                    crate::bits::lemma_coder_words(su >> (j as u32), 0, 0);
                    assert(b == bit_at(sym, j));
                    crate::bits::lemma_tree_node(su, k, kk as u32);
                }
            }
            m = (m << 1) | b;
            assert((1u32 << k) <= old_m < (1u32 << (k + 1) as u32) && k < 8 && b <= 1 ==> (1u32
                << (k + 1) as u32) <= ((old_m << 1u32) | b) < (1u32 << (k + 2) as u32)) by {
                crate::bits::lemma_tree_u32(old_m, b, k, 0);
            }
            k = k + 1;
        }
        assert((1u32 << num_bits) <= m < (1u32 << (num_bits + 1) as u32) && num_bits <= 8 ==> m
            - (1u32 << num_bits) < (1u32 << num_bits)) by {
            crate::bits::lemma_tree_u32(m, 0, 0, num_bits);
        }
        proof {
            if ok {
                crate::bits::lemma_tree_node(su, 0, num_bits);
                assert(self.todo@ =~= rest0);
            }
        }
        m - (1u32 << num_bits)
    }

    /// Decodes a least-significant-bit-first tree of `num_bits` bits. If the
    /// decoder follows a coding whose next decisions are `sym`'s down this
    /// tree, the result is `sym`.
    pub fn decode_bittree_reverse(
        &mut self,
        probs: &mut Vec<u16>,
        base: usize,
        num_bits: u32,
        Ghost(sym): Ghost<nat>,
    ) -> (res: u32)
        requires
            old(self).wf(),
            num_bits <= 8,
            base + (1usize << num_bits) <= old(probs)@.len(),
            probs_ok(old(probs)@),
        ensures
            final(self).wf(),
            final(self).input == old(self).input,
            final(self).read_past >= old(self).read_past,
            final(probs)@.len() == old(probs)@.len(),
            probs_ok(final(probs)@),
            res < (1u32 << num_bits),
            old(self).live@ && sym < (1u32 << num_bits) && starts_with(
                old(self).todo@,
                rtree_ops(old(probs)@, base as int, 1, sym, 0, num_bits as nat),
            ) ==> final(self).live@ && res == sym && final(self).todo@ == old(self).todo@.skip(
                num_bits as int,
            ) && final(self).at@ == run(
                old(self).at@,
                rtree_ops(old(probs)@, base as int, 1, sym, 0, num_bits as nat),
            ) && final(probs)@ == rtree_probs(old(probs)@, base as int, 1, sym, 0, num_bits as nat),
    {
        let ghost t0 = rtree_ops(probs@, base as int, 1, sym, 0, num_bits as nat);
        let ghost ok = self.live@ && sym < (1u32 << num_bits) && starts_with(self.todo@, t0);
        let ghost rest0 = self.todo@.skip(num_bits as int);
        let ghost target = run(self.at@, t0);
        let ghost ptarget = rtree_probs(probs@, base as int, 1, sym, 0, num_bits as nat);
        let ghost su = sym as u32;
        proof {
            crate::lzma::interval::lemma_rtree_len(probs@, base as int, 1, sym, 0, num_bits as nat);
            if ok {
                assert(self.todo@ =~= t0 + rest0);
            }
            crate::bits::lemma_low_bits_acc(su, 0, num_bits);
        }
        let mut m: usize = 1;
        let mut acc: u32 = 0;
        let mut k: u32 = 0;
        assert((1usize << 0usize) == 1 && (1usize << 1usize) == 2 && 0u32 < (1u32 << 0u32)) by {
            crate::bits::lemma_shift_consts();
        }
        while k < num_bits
            invariant
                self.wf(),
                self.input == old(self).input,
                self.read_past >= old(self).read_past,
                probs@.len() == old(probs)@.len(),
                probs_ok(probs@),
                k <= num_bits <= 8,
                base + (1usize << num_bits) <= probs@.len(),
                (1usize << k) <= m < (1usize << (k + 1) as usize),
                acc < (1u32 << k),
                ok ==> self.live@,
                ok ==> self.todo@ == rtree_ops(probs@, base as int, m as int, sym, k as nat, (num_bits
                    - k) as nat) + rest0,
                ok ==> run(
                    self.at@,
                    rtree_ops(probs@, base as int, m as int, sym, k as nat, (num_bits - k) as nat),
                ) == target,
                ok ==> rtree_probs(probs@, base as int, m as int, sym, k as nat, (num_bits - k) as nat)
                    == ptarget,
                ok ==> acc == (su & (((1u32 << k) - 1u32) as u32)),
                ok ==> su as nat == sym && su < (1u32 << num_bits),
            decreases num_bits - k,
        {
            assert((1usize << k) <= m < (1usize << (k + 1) as usize) && k < num_bits && num_bits
                <= 8 ==> m < (1usize << num_bits)) by {
                crate::bits::lemma_rev_tree(m, 0, 0, k, num_bits);
            }
            assert(m < (1usize << num_bits));
            let plen = probs.len();
            assert(base + m < plen);
            let ghost n = (num_bits - k) as nat;
            let ghost i = base + m;
            let ghost op = RcOp::Bit { p: probs@[i], bit: bit_at(sym, k as nat) };
            let ghost t2 = probs@.update(i, adapt(probs@[i], bit_at(sym, k as nat)));
            let ghost inner = rtree_ops(t2, base as int, 2 * m + bit_at(sym, k as nat), sym, (k + 1) as nat,
                (n - 1) as nat);
            let ghost s = self.at@;
            proof {
                if ok {
                    assert(rtree_ops(probs@, base as int, m as int, sym, k as nat, n) == seq![op] + inner);
                    assert(rtree_probs(probs@, base as int, m as int, sym, k as nat, n) == rtree_probs(
                        t2,
                        base as int,
                        2 * m + bit_at(sym, k as nat),
                        sym,
                        (k + 1) as nat,
                        (n - 1) as nat,
                    ));
                    crate::lzma::interval::lemma_cons_tail(op, inner, rest0);
                    crate::lzma::interval::lemma_run_cons(s, op, inner);
                }
            }
            let b = self.decode_bit(probs, base + m);
            let old_m = m;
            let old_acc = acc;
            proof {
                crate::bits::lemma_node_step(old_m, b as usize, num_bits as usize);
                if ok {
                    vstd::bits::lemma_u32_shr_is_div(su, k);
                    crate::bits::lemma_coder_words(su >> k, 0, 0);
                    assert(b == bit_at(sym, k as nat));
                    crate::bits::lemma_low_bits_acc(su, k, num_bits);
                }
            }
            m = (m << 1) | b as usize;
            acc = acc | (b << k);
            assert((1usize << k) <= old_m < (1usize << (k + 1) as usize) && k < 8 && b <= 1 ==> (1usize
                << (k + 1) as usize) <= ((old_m << 1usize) | b as usize) < (1usize << (k + 2) as usize))
                by {
                crate::bits::lemma_rev_tree(old_m, 0, b, k, 0);
            }
            assert(old_acc < (1u32 << k) && k < 8 && b <= 1 ==> (old_acc | (b << k)) < (1u32 << (k
                + 1) as u32)) by {
                crate::bits::lemma_rev_tree(0, old_acc, b, k, 0);
            }
            k = k + 1;
        }
        proof {
            if ok {
                crate::bits::lemma_low_bits_acc(su, 0, num_bits);
                assert(self.todo@ =~= rest0);
            }
        }
        acc
    }
}

// --- encoder ---

/// The value of the pending block: the cached byte followed by `n - 1`
/// bytes of `0xFF`.
pub open spec fn pending(cache: u8, n: nat) -> int {
    (cache as int + 1) * pow256((n - 1) as nat) - 1
}

/// A bound on renormalizations that keeps the pending count far from
/// overflowing.
pub open spec fn room_limit() -> nat {
    0x10_0000_0000_0000_0000_0000_0000
}


/// A pending block of one byte is that byte.
pub proof fn lemma_pending_one(c: u8)
    ensures
        pending(c, 1) == c as int,
        pow256(1) == 256,
{
    assert(pow256(0) == 1);
    assert(((1nat - 1) as nat) == 0nat);
    assert(pending(c, 1) == (c as int + 1) * pow256(0) - 1);
    assert(pow256(1) == 256) by {
        reveal_with_fuel(pow256, 2);
    }
}

/// One more `0xFF` behind a pending block.
pub proof fn lemma_pending_next(c: u8, n: nat)
    requires
        n >= 1,
    ensures
        pending(c, n + 1) == 256 * pending(c, n) + 255,
        pow256(n) == 256 * pow256((n - 1) as nat),
        pow256(n + 1) == 256 * pow256(n),
        pow256(n + 1) * 0x1_0000_0000 == 256 * (pow256(n) * 0x1_0000_0000),
{
    let q = pow256((n - 1) as nat);
    assert(pow256(n) == 256 * q);
    assert((c as int + 1) * pow256(n) == 256 * ((c as int + 1) * q)) by (nonlinear_arith)
        requires
            pow256(n) == 256 * q,
    ;
    assert(pow256(n + 1) == 256 * pow256(n));
    assert(pow256(n + 1) * 0x1_0000_0000 == 256 * (pow256(n) * 0x1_0000_0000)) by (nonlinear_arith)
        requires
            pow256(n + 1) == 256 * pow256(n),
    ;
}

/// Produces the range-coded stream.
pub struct RangeEncoder {
    pub low: u64,
    pub range: u32,
    pub cache: u8,
    pub cache_size: u128,
    pub out: Vec<u8>,
}

impl RangeEncoder {
    /// Everything emitted or pending, as a number: the output, the pending
    /// block, and the low end's 32 bits (and carry) below them.
    pub open spec fn value(&self) -> int {
        (be(self.out@) * pow256(self.cache_size as nat) + pending(self.cache, self.cache_size as nat))
            * 0x1_0000_0000 + self.low
    }

    /// Renormalizations so far: one byte each, emitted or pending, past
    /// the first.
    pub open spec fn shifts(&self) -> nat {
        (self.out@.len() + self.cache_size - 1) as nat
    }

    /// The coder's interval.
    pub open spec fn interval(&self) -> Interval {
        Interval { low: self.value(), range: self.range as int, shifts: self.shifts() }
    }

    /// The pending block and the interval above it fit below the block's
    /// next carry.
    pub open spec fn pend_ok(&self) -> bool {
        pending(self.cache, self.cache_size as nat) * 0x1_0000_0000 + self.low + self.range <= pow256(
            self.cache_size as nat,
        ) * 0x1_0000_0000
    }

    /// The encoder's standing invariant: the range has been renormalized, a
    /// byte is always pending, `low + range` never passes `2^33`, a carry
    /// out of `low` never passes the pending block, and the interval is a
    /// reachable one.
    pub open spec fn wf(&self) -> bool {
        &&& self.range >= TOP
        &&& self.cache_size >= 1
        &&& self.low as int + self.range as int <= 0x2_0000_0000
        &&& self.pend_ok()
        &&& valid(self.interval())
    }

    /// At least `k` more renormalizations fit before the bound.
    pub open spec fn roomy(&self, k: nat) -> bool {
        self.shifts() + k <= room_limit()
    }

    /// A fresh encoder.
    pub fn new() -> (e: Self)
        ensures
            e.wf(),
            e.out@ == Seq::<u8>::empty(),
            e.interval() == start(),
    {
        let e = RangeEncoder { low: 0, range: 0xFFFF_FFFF, cache: 0, cache_size: 1, out: Vec::new() };
        proof {
            assert(pow256(0) == 1);
            assert(be(e.out@) == 0);
            assert(pending(0, 1) == 0);
            assert(pow256(1) == 256) by {
                reveal_with_fuel(pow256, 2);
            }
        }
        e
    }

    /// Emits the pending byte (and the 0xFF bytes queued behind it, carried
    /// if `low` overflowed 32 bits) once the top byte of `low` is settled;
    /// otherwise queues one more. Either way the number scales by 256.
    fn shift_low(&mut self)
        requires
            old(self).cache_size >= 1,
            old(self).cache_size < 0xFFFF_FFFF_FFFF_FFFF_FFFF_FFFF_FFFF_FFFF,
            old(self).low < 0x2_0000_0000,
            pending(old(self).cache, old(self).cache_size as nat) * 0x1_0000_0000 + old(self).low
                < pow256(old(self).cache_size as nat) * 0x1_0000_0000,
        ensures
            final(self).value() == old(self).value() * 256,
            final(self).shifts() == old(self).shifts() + 1,
            final(self).range == old(self).range,
            final(self).cache_size >= 1,
            final(self).low == (old(self).low % 0x100_0000) * 256,
            final(self).out@.len() >= old(self).out@.len(),
            final(self).out@.subrange(0, old(self).out@.len() as int) == old(self).out@,
            (old(self).low < 0xFF00_0000 || old(self).low >= 0x1_0000_0000) ==> final(self).cache_size
                == 1 && final(self).cache as int == (old(self).low / 0x100_0000) % 256,
            !(old(self).low < 0xFF00_0000 || old(self).low >= 0x1_0000_0000) ==> (final(self).cache_size
                == old(self).cache_size + 1 && final(self).cache == old(self).cache),
    {
        let l = self.low;
        proof {
            crate::bits::lemma_coder_low(l);
            crate::bits::lemma_coder_carry(l);
        }
        let ghost e = be(self.out@);
        let ghost n = self.cache_size as nat;
        let ghost c = self.cache;
        let ghost o = self.out@;
        let ghost q = pow256((n - 1) as nat);
        let ghost carry_g: int = l as int / 0x1_0000_0000;
        let ghost top_g: int = (l as int / 0x100_0000) % 256;
        let ghost flushing = l < 0xFF00_0000 || l >= 0x1_0000_0000;
        proof {
            assert(pow256(n) == 256 * q);
            crate::lzma::interval::lemma_pow256_pos((n - 1) as nat);
        }
        if l < 0xFF00_0000 || l >= 0x1_0000_0000 {
            let carry: u8 = (l >> 32) as u8;
            proof {
                if carry == 1 {
                    assert((c as int + 1) * q - 1 + 1 < 256 * q) by (nonlinear_arith)
                        requires
                            ((c as int + 1) * q - 1) * 0x1_0000_0000 + l < (256 * q) * 0x1_0000_0000,
                            l >= 0x1_0000_0000,
                    ;
                    assert(c as int + 1 < 256) by (nonlinear_arith)
                        requires
                            (c as int + 1) * q < 256 * q,
                            q >= 1,
                    ;
                }
            }
            let first: u8 = self.cache + carry;
            self.out.push(first);
            proof {
                crate::lzma::interval::lemma_be_push(o, first);
                assert(pow256(0) == 1);
                assert(self.out@ == o.push(first));
                assert(first as int == c as int + carry as int);
                assert(be(self.out@) == e * 256 + c + carry);
                assert((e * 256 + c + 1) * pow256(0) == e * 256 + c + 1);
                assert(self.out@.subrange(0, o.len() as int) =~= o);
            }
            let fill: u8 = if carry == 0 {
                0xFF
            } else {
                0
            };
            let mut k: u128 = 1;
            while k < self.cache_size
                invariant
                    1 <= k <= n,
                    n == self.cache_size,
                    carry <= 1,
                    fill as int == 255 - 255 * carry,
                    self.low == l,
                    self.range == old(self).range,
                    self.cache == c,
                    self.out@.len() == o.len() + k,
                    self.out@.subrange(0, o.len() as int) == o,
                    be(self.out@) + 1 - carry == (e * 256 + c + 1) * pow256((k - 1) as nat),
                decreases n - k,
            {
                let ghost before = self.out@;
                self.out.push(fill);
                proof {
                    crate::lzma::interval::lemma_be_push(before, fill);
                    assert(self.out@.subrange(0, o.len() as int) == before.subrange(0, o.len() as int));
                    let x = pow256((k - 1) as nat);
                    assert(pow256(k as nat) == 256 * x);
                    assert((e * 256 + c + 1) * (256 * x) == 256 * ((e * 256 + c + 1) * x))
                        by (nonlinear_arith);
                }
                k = k + 1;
            }
            let top: u64 = (l >> 24) & 0xFF;
            self.cache = top as u8;
            self.cache_size = 1;
            proof {
                assert(be(self.out@) == e * pow256(n) + pending(c, n) + carry) by {
                    assert((e * 256 + c + 1) * q == e * (256 * q) + (c as int + 1) * q)
                        by (nonlinear_arith);
                }
                lemma_pending_one(self.cache);
            }
        } else {
            self.cache_size = self.cache_size + 1;
            proof {
                lemma_pending_next(c, n);
                assert(e * pow256(n + 1) == 256 * (e * pow256(n))) by (nonlinear_arith)
                    requires
                        pow256(n + 1) == 256 * pow256(n),
                ;
            }
        }
        self.low = (l << 8) & 0xFFFF_FFFF;
        proof {
            let h = e * pow256(n) + pending(c, n);
            assert(old(self).value() == h * 0x1_0000_0000 + l);
            if flushing {
                lemma_pending_one(self.cache);
                assert(self.cache_size == 1);
                assert(pow256(self.cache_size as nat) == 256);
                assert(be(self.out@) == h + carry_g);
                assert(self.cache as int == top_g);
                assert(self.value() == ((h + carry_g) * 256 + top_g) * 0x1_0000_0000 + (l as int
                    % 0x100_0000) * 256);
                assert(carry_g * 0x1_0000_0000 + top_g * 0x100_0000 + l as int % 0x100_0000 == l);
            } else {
                lemma_pending_next(c, n);
                assert(self.cache_size as nat == n + 1);
                assert(self.value() == (e * pow256(n + 1) + pending(c, n + 1)) * 0x1_0000_0000
                    + (l as int % 0x100_0000) * 256);
                assert(l as int % 0x100_0000 == l - 0xFF00_0000);
            }
        }
    }

    /// Renormalizes: if the range has fallen below `TOP`, widen it by a
    /// byte and shift the settled top byte of `low` out. A range of at
    /// least `2^16` needs no more than that once.
    fn normalize(&mut self)
        requires
            old(self).cache_size >= 1,
            old(self).cache_size < 0xFFFF_FFFF_FFFF_FFFF_FFFF_FFFF_FFFF_FFFF,
            old(self).range >= 0x1_0000,
            old(self).low as int + old(self).range as int <= 0x2_0000_0000,
            old(self).pend_ok(),
        ensures
            final(self).range >= TOP,
            final(self).cache_size >= 1,
            final(self).low as int + final(self).range as int <= 0x2_0000_0000,
            final(self).pend_ok(),
            final(self).interval() == renorm(old(self).interval()),
            final(self).out@.len() >= old(self).out@.len(),
            final(self).out@.subrange(0, old(self).out@.len() as int) == old(self).out@,
    {
        if self.range < TOP {
            let r = self.range;
            let l = self.low;
            proof {
                crate::bits::lemma_coder_words(r, 0, 0);
                crate::bits::lemma_coder_carry(l);
            }
            self.range = r << 8;
            let ghost c = self.cache;
            let ghost n = self.cache_size as nat;
            self.shift_low();
            proof {
                lemma_pending_one(self.cache);
                lemma_pending_next(c, n);
            }
        }
    }

    /// Encodes `bit` under the adaptive probability `probs[i]`, updating it.
    pub fn encode_bit(&mut self, probs: &mut Vec<u16>, i: usize, bit: u32)
        requires
            old(self).wf(),
            old(self).roomy(1),
            i < old(probs)@.len(),
            probs_ok(old(probs)@),
            bit <= 1,
        ensures
            final(self).wf(),
            final(self).interval() == step(
                old(self).interval(),
                RcOp::Bit { p: old(probs)@[i as int], bit },
            ),
            final(probs)@ == old(probs)@.update(i as int, adapt(old(probs)@[i as int], bit)),
            probs_ok(final(probs)@),
            op_ok(RcOp::Bit { p: old(probs)@[i as int], bit }),
            final(self).shifts() <= old(self).shifts() + 1,
            final(self).out@.len() >= old(self).out@.len(),
            final(self).out@.subrange(0, old(self).out@.len() as int) == old(self).out@,
    {
        let p = probs[i];
        proof {
            lemma_prob_updates(p);
            crate::lzma::interval::lemma_step(
                old(self).interval(),
                RcOp::Bit { p: old(probs)@[i as int], bit },
            );
        }
        let r = self.range;
        let q = r >> 11;
        assert(q == r / 2048) by {
            crate::bits::lemma_range_bits(r, q);
        }
        assert(q * (p as u32) <= r - q * 31 && q * (p as u32) >= 0x2_0000) by (nonlinear_arith)
            requires
                q == r / 2048,
                r >= 0x100_0000,
                31 <= p <= 2017,
        ;
        let bound = q * (p as u32);
        assert(((2048 - p) as u16) >> 5u16 <= 64 && p >> 5u16 <= p) by {
            crate::bits::lemma_prob_bits(p);
        }
        if bit == 0 {
            self.range = bound;
            probs.set(i, p + ((2048 - p) >> 5));
        } else {
            self.low = self.low + bound as u64;
            self.range = self.range - bound;
            probs.set(i, p - (p >> 5));
        }
        assert forall|j: int| 0 <= j < probs@.len() implies prob_ok(#[trigger] probs@[j]) by {
            if j != i {
                assert(probs@[j] == old(probs)@[j]);
            }
        }
        self.normalize();
    }

    /// Encodes the low `num` bits of `v`, most significant first, at a
    /// fixed probability of one half.
    pub fn encode_direct_bits(&mut self, v: u32, num: u32)
        requires
            old(self).wf(),
            old(self).roomy(num as nat),
            num <= 31,
        ensures
            final(self).wf(),
            final(self).interval() == run(old(self).interval(), direct_ops(v as nat, num as nat)),
            ops_ok(direct_ops(v as nat, num as nat)),
            final(self).shifts() <= old(self).shifts() + num,
            final(self).out@.len() >= old(self).out@.len(),
            final(self).out@.subrange(0, old(self).out@.len() as int) == old(self).out@,
    {
        let mut k: u32 = num;
        proof {
            crate::lzma::interval::lemma_direct_len(v as nat, num as nat);
        }
        while k > 0
            invariant
                self.wf(),
                self.roomy(k as nat),
                k <= num <= 31,
                run(self.interval(), direct_ops(v as nat, k as nat)) == run(
                    old(self).interval(),
                    direct_ops(v as nat, num as nat),
                ),
                self.out@.len() >= old(self).out@.len(),
                self.out@.subrange(0, old(self).out@.len() as int) == old(self).out@,
            decreases k,
        {
            k = k - 1;
            let bit = (v >> k) & 1;
            proof {
                vstd::bits::lemma_u32_shr_is_div(v, k);
                crate::bits::lemma_coder_words(v >> k, 0, 0);
                assert(bit == bit_at(v as nat, k as nat));
                let op = RcOp::Direct { bit };
                crate::lzma::interval::lemma_run_cons(
                    self.interval(),
                    op,
                    direct_ops(v as nat, k as nat),
                );
                crate::lzma::interval::lemma_step(self.interval(), op);
            }
            let ghost s0 = self.interval();
            let r = self.range;
            proof {
                crate::bits::lemma_coder_words(r, 0, 0);
            }
            self.range = self.range >> 1;
            if bit == 1 {
                self.low = self.low + self.range as u64;
            }
            let ghost before = self.out@;
            self.normalize();
            proof {
                assert(self.interval() == step(s0, RcOp::Direct { bit }));
                assert(self.out@.subrange(0, old(self).out@.len() as int) == self.out@.subrange(
                    0,
                    before.len() as int,
                ).subrange(0, old(self).out@.len() as int));
            }
        }
        proof {
            crate::lzma::interval::lemma_run(old(self).interval(), direct_ops(v as nat, num as nat));
        }
    }

    /// Encodes the low `num_bits` bits of `symbol` as a
    /// most-significant-bit-first tree over `probs[base + 1 ..= base +
    /// 2^num_bits - 1]`.
    pub fn encode_bittree(&mut self, probs: &mut Vec<u16>, base: usize, symbol: u32, num_bits: u32)
        requires
            old(self).wf(),
            old(self).roomy(num_bits as nat),
            1 <= num_bits <= 8,
            base + (1usize << num_bits) <= old(probs)@.len(),
            probs_ok(old(probs)@),
        ensures
            final(self).wf(),
            final(self).interval() == run(
                old(self).interval(),
                tree_ops(old(probs)@, base as int, 1, symbol as nat, num_bits as nat),
            ),
            final(probs)@ == tree_probs(old(probs)@, base as int, 1, symbol as nat, num_bits as nat),
            final(probs)@.len() == old(probs)@.len(),
            probs_ok(final(probs)@),
            ops_ok(tree_ops(old(probs)@, base as int, 1, symbol as nat, num_bits as nat)),
            final(self).shifts() <= old(self).shifts() + num_bits,
            final(self).out@.len() >= old(self).out@.len(),
            final(self).out@.subrange(0, old(self).out@.len() as int) == old(self).out@,
    {
        let mut m: usize = 1;
        let mut k: u32 = num_bits;
        assert((1usize << 0usize) == 1 && (1usize << 1usize) == 2) by {
            crate::bits::lemma_shift_consts();
        }
        while k > 0
            invariant
                self.wf(),
                self.roomy(k as nat),
                probs@.len() == old(probs)@.len(),
                probs_ok(probs@),
                k <= num_bits <= 8,
                base + (1usize << num_bits) <= probs@.len(),
                (1usize << (num_bits - k) as usize) <= m < (1usize << (num_bits - k + 1) as usize),
                run(self.interval(), tree_ops(probs@, base as int, m as int, symbol as nat, k as nat))
                    == run(
                    old(self).interval(),
                    tree_ops(old(probs)@, base as int, 1, symbol as nat, num_bits as nat),
                ),
                tree_probs(probs@, base as int, m as int, symbol as nat, k as nat) == tree_probs(
                    old(probs)@,
                    base as int,
                    1,
                    symbol as nat,
                    num_bits as nat,
                ),
                ops_ok(tree_ops(probs@, base as int, m as int, symbol as nat, k as nat)) ==> ops_ok(
                    tree_ops(old(probs)@, base as int, 1, symbol as nat, num_bits as nat),
                ),
                self.out@.len() >= old(self).out@.len(),
                self.out@.subrange(0, old(self).out@.len() as int) == old(self).out@,
            decreases k,
        {
            assert((1usize << (num_bits - k) as usize) <= m < (1usize << (num_bits - k + 1) as usize)
                && 0 < k <= num_bits && num_bits <= 8 ==> m < (1usize << num_bits)) by {
                crate::bits::lemma_enc_tree(m, 0, k, num_bits);
            }
            assert(m < (1usize << num_bits));
            k = k - 1;
            let bit = (symbol >> k) & 1;
            let ghost op = RcOp::Bit { p: probs@[base + m], bit };
            let ghost t2 = probs@.update(base + m, adapt(probs@[base + m], bit));
            let ghost s0 = self.interval();
            let ghost rest = tree_ops(t2, base as int, 2 * m + bit, symbol as nat, k as nat);
            proof {
                vstd::bits::lemma_u32_shr_is_div(symbol, k);
                crate::bits::lemma_coder_words(symbol >> k, 0, 0);
                assert(bit == bit_at(symbol as nat, k as nat));
                assert(tree_ops(probs@, base as int, m as int, symbol as nat, (k + 1) as nat) == seq![op]
                    + rest);
                assert(tree_probs(probs@, base as int, m as int, symbol as nat, (k + 1) as nat)
                    == tree_probs(t2, base as int, 2 * m + bit, symbol as nat, k as nat));
                crate::lzma::interval::lemma_run_cons(s0, op, rest);
                if ops_ok(rest) {
                    crate::lzma::interval::lemma_ops_ok_cons(op, rest);
                }
            }
            let ghost before = self.out@;
            let plen = probs.len();
            self.encode_bit(probs, base + m, bit);
            assert(self.interval() == step(s0, op));
            assert(probs@ == t2);
            assert(self.out@.subrange(0, old(self).out@.len() as int) == self.out@.subrange(
                0,
                before.len() as int,
            ).subrange(0, old(self).out@.len() as int));
            let om = m;
            proof {
                crate::bits::lemma_node_step(om, bit as usize, num_bits as usize);
            }
            m = (m << 1) | bit as usize;
            assert((1usize << (num_bits - k - 1) as usize) <= om < (1usize << (num_bits - k) as usize)
                && bit <= 1 && k < num_bits && num_bits <= 8 ==> (1usize << (num_bits - k) as usize)
                <= ((om << 1usize) | bit as usize) < (1usize << (num_bits - k + 1) as usize)) by {
                crate::bits::lemma_enc_tree(om, bit, k, num_bits);
            }
        }
        proof {
            crate::lzma::interval::lemma_run(
                old(self).interval(),
                tree_ops(old(probs)@, base as int, 1, symbol as nat, num_bits as nat),
            );
            crate::lzma::interval::lemma_tree_len(old(probs)@, base as int, 1, symbol as nat, num_bits as nat);
        }
    }

    /// Encodes bits `0 .. num_bits` of `symbol` as a
    /// least-significant-bit-first tree.
    pub fn encode_bittree_reverse(
        &mut self,
        probs: &mut Vec<u16>,
        base: usize,
        symbol: u32,
        num_bits: u32,
    )
        requires
            old(self).wf(),
            old(self).roomy(num_bits as nat),
            num_bits <= 8,
            base + (1usize << num_bits) <= old(probs)@.len(),
            probs_ok(old(probs)@),
        ensures
            final(self).wf(),
            final(self).interval() == run(
                old(self).interval(),
                rtree_ops(old(probs)@, base as int, 1, symbol as nat, 0, num_bits as nat),
            ),
            final(probs)@ == rtree_probs(old(probs)@, base as int, 1, symbol as nat, 0, num_bits as nat),
            final(probs)@.len() == old(probs)@.len(),
            probs_ok(final(probs)@),
            ops_ok(rtree_ops(old(probs)@, base as int, 1, symbol as nat, 0, num_bits as nat)),
            final(self).shifts() <= old(self).shifts() + num_bits,
            final(self).out@.len() >= old(self).out@.len(),
            final(self).out@.subrange(0, old(self).out@.len() as int) == old(self).out@,
    {
        let mut m: usize = 1;
        let mut k: u32 = 0;
        assert((1usize << 0usize) == 1 && (1usize << 1usize) == 2) by {
            crate::bits::lemma_shift_consts();
        }
        while k < num_bits
            invariant
                self.wf(),
                self.roomy((num_bits - k) as nat),
                probs@.len() == old(probs)@.len(),
                probs_ok(probs@),
                k <= num_bits <= 8,
                base + (1usize << num_bits) <= probs@.len(),
                (1usize << k as usize) <= m < (1usize << (k + 1) as usize),
                run(
                    self.interval(),
                    rtree_ops(probs@, base as int, m as int, symbol as nat, k as nat, (num_bits - k) as nat),
                ) == run(
                    old(self).interval(),
                    rtree_ops(old(probs)@, base as int, 1, symbol as nat, 0, num_bits as nat),
                ),
                rtree_probs(probs@, base as int, m as int, symbol as nat, k as nat, (num_bits - k) as nat)
                    == rtree_probs(old(probs)@, base as int, 1, symbol as nat, 0, num_bits as nat),
                ops_ok(rtree_ops(probs@, base as int, m as int, symbol as nat, k as nat, (num_bits - k) as nat))
                    ==> ops_ok(rtree_ops(old(probs)@, base as int, 1, symbol as nat, 0, num_bits as nat)),
                self.out@.len() >= old(self).out@.len(),
                self.out@.subrange(0, old(self).out@.len() as int) == old(self).out@,
            decreases num_bits - k,
        {
            assert((1usize << k as usize) <= m < (1usize << (k + 1) as usize) && k < num_bits
                && num_bits <= 8 ==> m < (1usize << num_bits)) by {
                crate::bits::lemma_enc_rev_tree(m, 0, k, num_bits);
            }
            assert(m < (1usize << num_bits));
            let bit = (symbol >> k) & 1;
            let ghost op = RcOp::Bit { p: probs@[base + m], bit };
            let ghost t2 = probs@.update(base + m, adapt(probs@[base + m], bit));
            let ghost s0 = self.interval();
            let ghost rest = rtree_ops(t2, base as int, 2 * m + bit, symbol as nat, (k + 1) as nat,
                (num_bits - k - 1) as nat);
            proof {
                vstd::bits::lemma_u32_shr_is_div(symbol, k);
                crate::bits::lemma_coder_words(symbol >> k, 0, 0);
                assert(bit == bit_at(symbol as nat, k as nat));
                assert(rtree_ops(probs@, base as int, m as int, symbol as nat, k as nat, (num_bits - k) as nat)
                    == seq![op] + rest);
                assert(rtree_probs(probs@, base as int, m as int, symbol as nat, k as nat, (num_bits - k) as nat)
                    == rtree_probs(t2, base as int, 2 * m + bit, symbol as nat, (k + 1) as nat,
                    (num_bits - k - 1) as nat));
                crate::lzma::interval::lemma_run_cons(s0, op, rest);
                if ops_ok(rest) {
                    crate::lzma::interval::lemma_ops_ok_cons(op, rest);
                }
            }
            let ghost before = self.out@;
            let plen = probs.len();
            self.encode_bit(probs, base + m, bit);
            assert(self.interval() == step(s0, op));
            assert(probs@ == t2);
            assert(self.out@.subrange(0, old(self).out@.len() as int) == self.out@.subrange(
                0,
                before.len() as int,
            ).subrange(0, old(self).out@.len() as int));
            let om = m;
            proof {
                crate::bits::lemma_node_step(om, bit as usize, num_bits as usize);
            }
            m = (m << 1) | bit as usize;
            assert((1usize << k as usize) <= om < (1usize << (k + 1) as usize) && bit <= 1 && k < 8
                ==> (1usize << (k + 1) as usize) <= ((om << 1usize) | bit as usize) < (1usize << (k
                + 2) as usize)) by {
                crate::bits::lemma_enc_rev_tree(om, bit, k, 0);
            }
            k = k + 1;
        }
        proof {
            crate::lzma::interval::lemma_run(
                old(self).interval(),
                rtree_ops(old(probs)@, base as int, 1, symbol as nat, 0, num_bits as nat),
            );
            crate::lzma::interval::lemma_rtree_len(old(probs)@, base as int, 1, symbol as nat, 0, num_bits as nat);
        }
    }

    /// Flushes the five bytes of coder state still pending: the stream is
    /// then exactly the interval's low end, in as many bytes as there were
    /// renormalizations plus five.
    pub fn flush(&mut self)
        requires
            old(self).wf(),
            old(self).roomy(5),
        ensures
            be(final(self).out@) == old(self).interval().low,
            final(self).out@.len() == old(self).interval().shifts + 5,
    {
        let l0 = self.low;
        proof {
            crate::bits::lemma_coder_low(l0);
            assert(pending(self.cache, self.cache_size as nat) * 0x1_0000_0000 + self.low
                < pow256(self.cache_size as nat) * 0x1_0000_0000);
        }
        self.flush_shift();
        self.flush_shift();
        self.flush_shift();
        self.flush_shift();
        let ghost v4 = self.value();
        proof {
            assert(self.low == 0);
        }
        self.flush_shift();
        proof {
            assert(self.cache_size == 1 && self.cache == 0);
            lemma_pending_one(0);
            assert(self.low == 0);
            assert(pow256(self.cache_size as nat) == 256);
            assert(pending(self.cache, self.cache_size as nat) == 0);
            let b = be(self.out@);
            assert(b * pow256(self.cache_size as nat) == b * 256);
            assert(self.value() == (b * 256) * 0x1_0000_0000);
            assert(self.value() == b * 0x100_0000_0000) by (nonlinear_arith)
                requires
                    self.value() == (b * 256) * 0x1_0000_0000,
            ;
            let v = old(self).value();
            assert(self.value() == v * 0x100_0000_0000);
            assert(self.value() == be(self.out@) * 0x100_0000_0000);
        }
    }

    /// One of the flush's shifts, with the invariant it needs.
    fn flush_shift(&mut self)
        requires
            old(self).cache_size >= 1,
            old(self).cache_size + 5 < 0xFFFF_FFFF_FFFF_FFFF_FFFF_FFFF_FFFF_FFFF,
            old(self).low < 0x2_0000_0000,
            pending(old(self).cache, old(self).cache_size as nat) * 0x1_0000_0000 + old(self).low
                < pow256(old(self).cache_size as nat) * 0x1_0000_0000,
        ensures
            final(self).value() == old(self).value() * 256,
            final(self).shifts() == old(self).shifts() + 1,
            final(self).cache_size >= 1,
            final(self).cache_size <= old(self).cache_size + 1,
            final(self).low == (old(self).low % 0x100_0000) * 256,
            final(self).low < 0x1_0000_0000,
            pending(final(self).cache, final(self).cache_size as nat) * 0x1_0000_0000
                + final(self).low < pow256(final(self).cache_size as nat) * 0x1_0000_0000,
            old(self).low < 0xFF00_0000 ==> final(self).cache_size == 1 && final(self).cache as int
                == (old(self).low / 0x100_0000) % 256,
    {
        let l = self.low;
        let ghost c = self.cache;
        let ghost n = self.cache_size as nat;
        proof {
            crate::bits::lemma_coder_low(l);
            crate::bits::lemma_coder_carry(l);
        }
        self.shift_low();
        proof {
            lemma_pending_one(self.cache);
            lemma_pending_next(c, n);
        }
    }
}

} // verus!
