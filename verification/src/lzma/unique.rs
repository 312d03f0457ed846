//! A range-coded stream codes one sequence of decisions only: where two
//! codings of the same stream from the same interval take a decision under
//! the same probability, they take the same bit. Every symbol, step and
//! stream read from it is therefore the same whichever coding is held.
use super::interval::{
    adapt, be, bit_at, codes, direct_ops, lemma_be_take_next, lemma_run_append, lemma_run_cons,
    lemma_step, lemma_window, op_ok, ops_ok, renorm, rtree_ops, rtree_probs, run, split, step,
    tree_ops, tree_probs, valid, Interval, RcOp,
};
use super::model::{
    dist_ops, len_ops, lit_ops, lit_probs, slot_base, slot_bits, slot_ok, LenView, Tables,
};
use super::stream::{
    after, flagged, init_ctx, lemma_after_grows, lemma_pick_shape, lemma_rep_shape,
    lemma_short_rep_shape, lit_base, lzma_body_of, match_byte_of, match_index, pos_state_at,
    rep_pick_ops, step_next, step_ok, step_ops, steps_ok, stream_ops, Ctx, Step,
};
use super::interval::{lemma_run, start};
use vstd::arithmetic::power2::pow2;
use vstd::prelude::*;

verus! {

/// The two halves of a sequence of good decisions are good.
pub proof fn lemma_ops_ok_split(a: Seq<RcOp>, b: Seq<RcOp>)
    requires
        ops_ok(a + b),
    ensures
        ops_ok(a),
        ops_ok(b),
{
    assert forall|i: int| 0 <= i < a.len() implies op_ok(#[trigger] a[i]) by {
        assert((a + b)[i] == a[i]);
    }
    assert forall|i: int| 0 <= i < b.len() implies op_ok(#[trigger] b[i]) by {
        assert((a + b)[a.len() + i] == b[i]);
    }
}

/// A stream that codes `a + r` from `s` codes `r` from where `a` ends.
pub proof fn lemma_codes_split(b: Seq<u8>, s: Interval, a: Seq<RcOp>, r: Seq<RcOp>)
    requires
        codes(b, s, a + r),
    ensures
        codes(b, run(s, a), r),
{
    lemma_run_append(s, a, r);
}

/// The window of the stream at `s` lies in the interval its first decision
/// narrows `s` to, before that is renormalized.
pub proof fn lemma_window_pre(b: Seq<u8>, s: Interval, op: RcOp, rest: Seq<RcOp>, t: Interval)
    requires
        valid(s),
        op_ok(op),
        ops_ok(rest),
        codes(b, s, seq![op] + rest),
        step(s, op) == renorm(t),
        t.shifts == s.shifts,
        t.range >= 1,
    ensures
        t.low <= be(b.take(s.shifts + 5int)) < t.low + t.range,
{
    let s2 = step(s, op);
    lemma_step(s, op);
    lemma_run_cons(s, op, rest);
    lemma_window(b, s2, rest);
    let n = s.shifts + 5int;
    if t.range < 0x100_0000 {
        lemma_be_take_next(b, n);
        let w = be(b.take(n));
        assert(t.low <= w < t.low + t.range) by (nonlinear_arith)
            requires
                t.low * 256 <= w * 256 + (b[n] as int),
                w * 256 + (b[n] as int) < t.low * 256 + t.range * 256,
                0 <= b[n] < 256,
        ;
    }
}

/// Two codings of one stream from one interval take the same bit where
/// they decide under the same probability.
pub proof fn lemma_same_bit(
    b: Seq<u8>,
    s: Interval,
    o1: RcOp,
    r1: Seq<RcOp>,
    o2: RcOp,
    r2: Seq<RcOp>,
)
    requires
        valid(s),
        op_ok(o1),
        op_ok(o2),
        ops_ok(r1),
        ops_ok(r2),
        codes(b, s, seq![o1] + r1),
        codes(b, s, seq![o2] + r2),
        (o1 matches RcOp::Bit { p: p1, .. } && o2 matches RcOp::Bit { p: p2, .. } && p1 == p2)
            || (o1 is Direct && o2 is Direct),
    ensures
        o1 == o2,
{
    let q = s.range / 2048;
    assert(q >= 0x2000 && q * 2048 <= s.range) by (nonlinear_arith)
        requires
            q == s.range / 2048,
            s.range >= 0x100_0000,
    ;
    match o1 {
        RcOp::Bit { p, bit: b1 } => {
            let b2 = match o2 {
                RcOp::Bit { bit, .. } => bit,
                RcOp::Direct { bit } => bit,
            };
            let bound = split(s.range, p);
            assert(bound >= 1 && bound + 1 <= s.range) by (nonlinear_arith)
                requires
                    bound == q * (p as int),
                    31 <= p <= 2017,
                    q >= 0x2000,
                    q * 2048 <= s.range,
            ;
            let t0 = Interval { low: s.low, range: bound, shifts: s.shifts };
            let t1 = Interval { low: s.low + bound, range: s.range - bound, shifts: s.shifts };
            let t_1 = if b1 == 0 {
                t0
            } else {
                t1
            };
            let t_2 = if b2 == 0 {
                t0
            } else {
                t1
            };
            lemma_window_pre(b, s, o1, r1, t_1);
            lemma_window_pre(b, s, o2, r2, t_2);
        },
        RcOp::Direct { bit: b1 } => {
            let b2 = match o2 {
                RcOp::Bit { bit, .. } => bit,
                RcOp::Direct { bit } => bit,
            };
            let h = s.range / 2;
            let t0 = Interval { low: s.low, range: h, shifts: s.shifts };
            let t1 = Interval { low: s.low + h, range: h, shifts: s.shifts };
            let t_1 = if b1 == 0 {
                t0
            } else {
                t1
            };
            let t_2 = if b2 == 0 {
                t0
            } else {
                t1
            };
            lemma_window_pre(b, s, o1, r1, t_1);
            lemma_window_pre(b, s, o2, r2, t_2);
        },
    }
}

/// Taking the first decision of a coded sequence: the rest is good and
/// coded from where that decision leaves the interval.
pub proof fn lemma_take_first(b: Seq<u8>, s: Interval, op: RcOp, x: Seq<RcOp>, r: Seq<RcOp>)
    requires
        valid(s),
        ops_ok((seq![op] + x) + r),
        codes(b, s, (seq![op] + x) + r),
    ensures
        (seq![op] + x) + r == seq![op] + (x + r),
        op_ok(op),
        ops_ok(x + r),
        valid(step(s, op)),
        codes(b, step(s, op), x + r),
        codes(b, s, seq![op] + (x + r)),
{
    assert((seq![op] + x) + r =~= seq![op] + (x + r));
    lemma_ops_ok_split(seq![op], x + r);
    assert(seq![op][0] == op);
    lemma_step(s, op);
    lemma_run_cons(s, op, x + r);
}

/// Two numbers below `2^k` whose low `k` bits agree are equal.
pub proof fn lemma_bits_eq(a: nat, c: nat, k: nat)
    requires
        a < pow2(k),
        c < pow2(k),
        forall|j: nat| j < k ==> bit_at(a, j) == bit_at(c, j),
    ensures
        a == c,
    decreases k,
{
    if k == 0 {
        vstd::arithmetic::power2::lemma2_to64();
    } else {
        vstd::arithmetic::power2::lemma_pow2_unfold(k);
        vstd::arithmetic::power2::lemma2_to64();
        assert(bit_at(a, 0) == bit_at(c, 0));
        assert(a % 2 == c % 2) by {
            assert(a / pow2(0) == a);
            assert(c / pow2(0) == c);
        }
        assert forall|j: nat| j < (k - 1) as nat implies #[trigger] bit_at(a / 2, j) == bit_at(c / 2, j) by {
            vstd::arithmetic::power2::lemma_pow2_unfold(j + 1);
            vstd::arithmetic::power2::lemma_pow2_pos(j);
            vstd::arithmetic::div_mod::lemma_div_denominator(a as int, 2, pow2(j) as int);
            vstd::arithmetic::div_mod::lemma_div_denominator(c as int, 2, pow2(j) as int);
            assert(bit_at(a, j + 1) == bit_at(c, j + 1));
        }
        assert(a / 2 < pow2((k - 1) as nat) && c / 2 < pow2((k - 1) as nat)) by (nonlinear_arith)
            requires
                a < pow2(k),
                c < pow2(k),
                pow2(k) == 2 * pow2((k - 1) as nat),
        ;
        lemma_bits_eq(a / 2, c / 2, (k - 1) as nat);
    }
}

/// Two codings of one stream down one bit tree code the same bits.
pub proof fn lemma_tree_det(
    b: Seq<u8>,
    s: Interval,
    t: Seq<u16>,
    base: int,
    m: int,
    y1: nat,
    y2: nat,
    k: nat,
    r1: Seq<RcOp>,
    r2: Seq<RcOp>,
)
    requires
        valid(s),
        ops_ok(tree_ops(t, base, m, y1, k) + r1),
        ops_ok(tree_ops(t, base, m, y2, k) + r2),
        codes(b, s, tree_ops(t, base, m, y1, k) + r1),
        codes(b, s, tree_ops(t, base, m, y2, k) + r2),
    ensures
        tree_ops(t, base, m, y1, k) == tree_ops(t, base, m, y2, k),
        tree_probs(t, base, m, y1, k) == tree_probs(t, base, m, y2, k),
        forall|j: nat| j < k ==> bit_at(y1, j) == bit_at(y2, j),
    decreases k,
{
    if k > 0 {
        let i = base + m;
        let b1 = bit_at(y1, (k - 1) as nat);
        let b2 = bit_at(y2, (k - 1) as nat);
        let o1 = RcOp::Bit { p: t[i], bit: b1 };
        let o2 = RcOp::Bit { p: t[i], bit: b2 };
        let x1 = tree_ops(t.update(i, adapt(t[i], b1)), base, 2 * m + b1, y1, (k - 1) as nat);
        let x2 = tree_ops(t.update(i, adapt(t[i], b2)), base, 2 * m + b2, y2, (k - 1) as nat);
        assert(tree_ops(t, base, m, y1, k) == seq![o1] + x1);
        assert(tree_ops(t, base, m, y2, k) == seq![o2] + x2);
        lemma_take_first(b, s, o1, x1, r1);
        lemma_take_first(b, s, o2, x2, r2);
        lemma_same_bit(b, s, o1, x1 + r1, o2, x2 + r2);
        lemma_tree_det(
            b,
            step(s, o1),
            t.update(i, adapt(t[i], b1)),
            base,
            2 * m + b1,
            y1,
            y2,
            (k - 1) as nat,
            r1,
            r2,
        );
    }
}

/// Two codings of one stream down one reverse bit tree code the same bits.
pub proof fn lemma_rtree_det(
    b: Seq<u8>,
    s: Interval,
    t: Seq<u16>,
    base: int,
    m: int,
    y1: nat,
    y2: nat,
    j: nat,
    n: nat,
    r1: Seq<RcOp>,
    r2: Seq<RcOp>,
)
    requires
        valid(s),
        ops_ok(rtree_ops(t, base, m, y1, j, n) + r1),
        ops_ok(rtree_ops(t, base, m, y2, j, n) + r2),
        codes(b, s, rtree_ops(t, base, m, y1, j, n) + r1),
        codes(b, s, rtree_ops(t, base, m, y2, j, n) + r2),
    ensures
        rtree_ops(t, base, m, y1, j, n) == rtree_ops(t, base, m, y2, j, n),
        rtree_probs(t, base, m, y1, j, n) == rtree_probs(t, base, m, y2, j, n),
        forall|q: nat| j <= q < j + n ==> bit_at(y1, q) == bit_at(y2, q),
    decreases n,
{
    if n > 0 {
        let i = base + m;
        let b1 = bit_at(y1, j);
        let b2 = bit_at(y2, j);
        let o1 = RcOp::Bit { p: t[i], bit: b1 };
        let o2 = RcOp::Bit { p: t[i], bit: b2 };
        let x1 = rtree_ops(t.update(i, adapt(t[i], b1)), base, 2 * m + b1, y1, j + 1, (n - 1) as nat);
        let x2 = rtree_ops(t.update(i, adapt(t[i], b2)), base, 2 * m + b2, y2, j + 1, (n - 1) as nat);
        assert(rtree_ops(t, base, m, y1, j, n) == seq![o1] + x1);
        assert(rtree_ops(t, base, m, y2, j, n) == seq![o2] + x2);
        lemma_take_first(b, s, o1, x1, r1);
        lemma_take_first(b, s, o2, x2, r2);
        lemma_same_bit(b, s, o1, x1 + r1, o2, x2 + r2);
        lemma_rtree_det(
            b,
            step(s, o1),
            t.update(i, adapt(t[i], b1)),
            base,
            2 * m + b1,
            y1,
            y2,
            j + 1,
            (n - 1) as nat,
            r1,
            r2,
        );
    }
}

/// Two codings of one stream at one half code the same bits.
pub proof fn lemma_direct_det(
    b: Seq<u8>,
    s: Interval,
    v1: nat,
    v2: nat,
    k: nat,
    r1: Seq<RcOp>,
    r2: Seq<RcOp>,
)
    requires
        valid(s),
        ops_ok(direct_ops(v1, k) + r1),
        ops_ok(direct_ops(v2, k) + r2),
        codes(b, s, direct_ops(v1, k) + r1),
        codes(b, s, direct_ops(v2, k) + r2),
    ensures
        direct_ops(v1, k) == direct_ops(v2, k),
        forall|j: nat| j < k ==> bit_at(v1, j) == bit_at(v2, j),
    decreases k,
{
    if k > 0 {
        let o1 = RcOp::Direct { bit: bit_at(v1, (k - 1) as nat) };
        let o2 = RcOp::Direct { bit: bit_at(v2, (k - 1) as nat) };
        let x1 = direct_ops(v1, (k - 1) as nat);
        let x2 = direct_ops(v2, (k - 1) as nat);
        lemma_take_first(b, s, o1, x1, r1);
        lemma_take_first(b, s, o2, x2, r2);
        lemma_same_bit(b, s, o1, x1 + r1, o2, x2 + r2);
        lemma_direct_det(b, step(s, o1), v1, v2, (k - 1) as nat, r1, r2);
    }
}


/// Two codings of one stream of a literal's bits code the same bits.
pub proof fn lemma_lit_det(
    b: Seq<u8>,
    s: Interval,
    t: Seq<u16>,
    base: int,
    m: int,
    y1: nat,
    y2: nat,
    mb: nat,
    matched: bool,
    k: nat,
    r1: Seq<RcOp>,
    r2: Seq<RcOp>,
)
    requires
        valid(s),
        ops_ok(lit_ops(t, base, m, y1, mb, matched, k) + r1),
        ops_ok(lit_ops(t, base, m, y2, mb, matched, k) + r2),
        codes(b, s, lit_ops(t, base, m, y1, mb, matched, k) + r1),
        codes(b, s, lit_ops(t, base, m, y2, mb, matched, k) + r2),
    ensures
        lit_ops(t, base, m, y1, mb, matched, k) == lit_ops(t, base, m, y2, mb, matched, k),
        lit_probs(t, base, m, y1, mb, matched, k) == lit_probs(t, base, m, y2, mb, matched, k),
        forall|j: nat| j < k ==> bit_at(y1, j) == bit_at(y2, j),
    decreases k,
{
    if k > 0 {
        let mbit = bit_at(mb, (k - 1) as nat);
        let i = if matched {
            base + 0x100 * (1 + mbit) + m
        } else {
            base + m
        };
        let b1 = bit_at(y1, (k - 1) as nat);
        let b2 = bit_at(y2, (k - 1) as nat);
        let o1 = RcOp::Bit { p: t[i], bit: b1 };
        let o2 = RcOp::Bit { p: t[i], bit: b2 };
        let x1 = lit_ops(t.update(i, adapt(t[i], b1)), base, 2 * m + b1, y1, mb, matched && mbit == b1, (k - 1) as nat);
        let x2 = lit_ops(t.update(i, adapt(t[i], b2)), base, 2 * m + b2, y2, mb, matched && mbit == b2, (k - 1) as nat);
        assert(lit_ops(t, base, m, y1, mb, matched, k) == seq![o1] + x1);
        assert(lit_ops(t, base, m, y2, mb, matched, k) == seq![o2] + x2);
        lemma_take_first(b, s, o1, x1, r1);
        lemma_take_first(b, s, o2, x2, r2);
        lemma_same_bit(b, s, o1, x1 + r1, o2, x2 + r2);
        lemma_lit_det(
            b,
            step(s, o1),
            t.update(i, adapt(t[i], b1)),
            base,
            2 * m + b1,
            y1,
            y2,
            mb,
            matched && mbit == b1,
            (k - 1) as nat,
            r1,
            r2,
        );
    }
}

/// `(1 << n)` is `2^n`, for shifts that fit.
proof fn lemma_shl_pow2(n: u32)
    requires
        n <= 30,
    ensures
        (1u32 << n) as nat == pow2(n as nat),
{
    vstd::arithmetic::power2::lemma2_to64();
    if n < 30 {
        vstd::arithmetic::power2::lemma_pow2_strictly_increases(n as nat, 30);
    }
    vstd::bits::lemma_u32_shl_is_mul(1, n);
}

/// Two codings of one stream of a length code the same length.
pub proof fn lemma_len_det(
    b: Seq<u8>,
    s: Interval,
    v: LenView,
    l1: nat,
    l2: nat,
    ps: nat,
    r1: Seq<RcOp>,
    r2: Seq<RcOp>,
)
    requires
        valid(s),
        l1 < 272,
        l2 < 272,
        ops_ok(len_ops(v, l1, ps) + r1),
        ops_ok(len_ops(v, l2, ps) + r2),
        codes(b, s, len_ops(v, l1, ps) + r1),
        codes(b, s, len_ops(v, l2, ps) + r2),
    ensures
        l1 == l2,
{
    vstd::arithmetic::power2::lemma2_to64();
    let c0 = v.choice[0];
    let ch1 = v.choice.update(0, adapt(c0, 1));
    let a1 = RcOp::Bit { p: c0, bit: if l1 < 8 { 0u32 } else { 1u32 } };
    let a2 = RcOp::Bit { p: c0, bit: if l2 < 8 { 0u32 } else { 1u32 } };
    let base8 = (ps * 8) as int;
    let x1 = if l1 < 8 {
        tree_ops(v.low, base8, 1, l1, 3)
    } else if l1 < 16 {
        seq![RcOp::Bit { p: ch1[1], bit: 0 }] + tree_ops(v.mid, base8, 1, (l1 - 8) as nat, 3)
    } else {
        seq![RcOp::Bit { p: ch1[1], bit: 1 }] + tree_ops(v.high, 0, 1, (l1 - 16) as nat, 8)
    };
    let x2 = if l2 < 8 {
        tree_ops(v.low, base8, 1, l2, 3)
    } else if l2 < 16 {
        seq![RcOp::Bit { p: ch1[1], bit: 0 }] + tree_ops(v.mid, base8, 1, (l2 - 8) as nat, 3)
    } else {
        seq![RcOp::Bit { p: ch1[1], bit: 1 }] + tree_ops(v.high, 0, 1, (l2 - 16) as nat, 8)
    };
    assert(len_ops(v, l1, ps) =~= seq![a1] + x1);
    assert(len_ops(v, l2, ps) =~= seq![a2] + x2);
    lemma_take_first(b, s, a1, x1, r1);
    lemma_take_first(b, s, a2, x2, r2);
    lemma_same_bit(b, s, a1, x1 + r1, a2, x2 + r2);
    let s1 = step(s, a1);
    if l1 < 8 {
        lemma_tree_det(b, s1, v.low, base8, 1, l1, l2, 3, r1, r2);
        lemma_bits_eq(l1, l2, 3);
    } else {
        let bb1 = RcOp::Bit { p: ch1[1], bit: if l1 < 16 { 0u32 } else { 1u32 } };
        let bb2 = RcOp::Bit { p: ch1[1], bit: if l2 < 16 { 0u32 } else { 1u32 } };
        let y1 = if l1 < 16 {
            tree_ops(v.mid, base8, 1, (l1 - 8) as nat, 3)
        } else {
            tree_ops(v.high, 0, 1, (l1 - 16) as nat, 8)
        };
        let y2 = if l2 < 16 {
            tree_ops(v.mid, base8, 1, (l2 - 8) as nat, 3)
        } else {
            tree_ops(v.high, 0, 1, (l2 - 16) as nat, 8)
        };
        assert(x1 == seq![bb1] + y1);
        assert(x2 == seq![bb2] + y2);
        lemma_take_first(b, s1, bb1, y1, r1);
        lemma_take_first(b, s1, bb2, y2, r2);
        lemma_same_bit(b, s1, bb1, y1 + r1, bb2, y2 + r2);
        let s2 = step(s1, bb1);
        if l1 < 16 {
            lemma_tree_det(b, s2, v.mid, base8, 1, (l1 - 8) as nat, (l2 - 8) as nat, 3, r1, r2);
            lemma_bits_eq((l1 - 8) as nat, (l2 - 8) as nat, 3);
        } else {
            lemma_tree_det(b, s2, v.high, 0, 1, (l1 - 16) as nat, (l2 - 16) as nat, 8, r1, r2);
            lemma_bits_eq((l1 - 16) as nat, (l2 - 16) as nat, 8);
        }
    }
}

/// Two codings of one stream of a distance code the same distance.
pub proof fn lemma_dist_det(
    b: Seq<u8>,
    s: Interval,
    t: Tables,
    d1: u32,
    sl1: u32,
    d2: u32,
    sl2: u32,
    ls: nat,
    r1: Seq<RcOp>,
    r2: Seq<RcOp>,
)
    requires
        valid(s),
        slot_ok(d1, sl1),
        slot_ok(d2, sl2),
        ops_ok(dist_ops(t, d1, sl1, ls) + r1),
        ops_ok(dist_ops(t, d2, sl2, ls) + r2),
        codes(b, s, dist_ops(t, d1, sl1, ls) + r1),
        codes(b, s, dist_ops(t, d2, sl2, ls) + r2),
    ensures
        d1 == d2,
        sl1 == sl2,
{
    vstd::arithmetic::power2::lemma2_to64();
    let base64 = (super::model::len_state_of(ls) * 64) as int;
    let h1 = tree_ops(t.pos_slot, base64, 1, sl1 as nat, 6);
    let h2 = tree_ops(t.pos_slot, base64, 1, sl2 as nat, 6);
    let tl1 = dist_ops(t, d1, sl1, ls).skip(6);
    let tl2 = dist_ops(t, d2, sl2, ls).skip(6);
    super::interval::lemma_tree_len(t.pos_slot, base64, 1, sl1 as nat, 6);
    super::interval::lemma_tree_len(t.pos_slot, base64, 1, sl2 as nat, 6);
    assert(dist_ops(t, d1, sl1, ls) =~= h1 + tl1);
    assert(dist_ops(t, d2, sl2, ls) =~= h2 + tl2);
    assert((h1 + tl1) + r1 =~= h1 + (tl1 + r1));
    assert((h2 + tl2) + r2 =~= h2 + (tl2 + r2));
    lemma_tree_det(b, s, t.pos_slot, base64, 1, sl1 as nat, sl2 as nat, 6, tl1 + r1, tl2 + r2);
    lemma_bits_eq(sl1 as nat, sl2 as nat, 6);
    if sl1 >= 4 {
        lemma_ops_ok_split(h1, tl1 + r1);
        lemma_ops_ok_split(h2, tl2 + r2);
        lemma_run(s, h1);
        let s1 = run(s, h1);
        lemma_codes_split(b, s, h1, tl1 + r1);
        lemma_codes_split(b, s, h2, tl2 + r2);
        let nd = slot_bits(sl1);
        let base = slot_base(sl1);
        let red1 = (d1 - base) as u32;
        let red2 = (d2 - base) as u32;
        assert(4 <= sl1 < 64 ==> 2 <= (sl1 >> 1u32) <= 31) by {
            crate::bits::lemma_slot_bits(sl1, 0, 0);
        }
        lemma_shl_pow2(nd);
        if sl1 < 14 {
            assert(tl1 =~= rtree_ops(t.spec_pos, base - sl1, 1, red1 as nat, 0, nd as nat));
            assert(tl2 =~= rtree_ops(t.spec_pos, base - sl1, 1, red2 as nat, 0, nd as nat));
            lemma_rtree_det(b, s1, t.spec_pos, base - sl1, 1, red1 as nat, red2 as nat, 0, nd as nat, r1, r2);
            lemma_bits_eq(red1 as nat, red2 as nat, nd as nat);
        } else {
            assert(6 <= nd <= 30) by {
                crate::bits::lemma_slot_bits(sl1, nd, 0);
            }
            let dp1 = direct_ops((red1 >> 4u32) as nat, (nd - 4) as nat);
            let dp2 = direct_ops((red2 >> 4u32) as nat, (nd - 4) as nat);
            let ap1 = rtree_ops(t.align, 0, 1, (red1 & 15u32) as nat, 0, 4);
            let ap2 = rtree_ops(t.align, 0, 1, (red2 & 15u32) as nat, 0, 4);
            assert(tl1 + r1 =~= dp1 + (ap1 + r1));
            assert(tl2 + r2 =~= dp2 + (ap2 + r2));
            lemma_direct_det(b, s1, (red1 >> 4u32) as nat, (red2 >> 4u32) as nat, (nd - 4) as nat, ap1 + r1, ap2 + r2);
            crate::bits::lemma_slot_bits(0, nd, red1);
            crate::bits::lemma_slot_bits(0, nd, red2);
            lemma_shl_pow2((nd - 4) as u32);
            lemma_bits_eq((red1 >> 4u32) as nat, (red2 >> 4u32) as nat, (nd - 4) as nat);
            lemma_ops_ok_split(dp1, ap1 + r1);
            lemma_ops_ok_split(dp2, ap2 + r2);
            lemma_run(s1, dp1);
            lemma_codes_split(b, s1, dp1, ap1 + r1);
            lemma_codes_split(b, s1, dp2, ap2 + r2);
            lemma_rtree_det(b, run(s1, dp1), t.align, 0, 1, (red1 & 15u32) as nat, (red2 & 15u32) as nat, 0, 4, r1, r2);
            lemma_bits_eq((red1 & 15u32) as nat, (red2 & 15u32) as nat, 4);
        }
    }
}

/// Two codings of one stream of a literal step's byte code the same byte.
proof fn lemma_lit_step_det(b: Seq<u8>, s1: Interval, c: Ctx, v1: u8, v2: u8, r1: Seq<RcOp>, r2: Seq<RcOp>)
    requires
        valid(s1),
        ops_ok(step_ops(c, Step::Lit(v1)).drop_first() + r1),
        ops_ok(step_ops(c, Step::Lit(v2)).drop_first() + r2),
        codes(b, s1, step_ops(c, Step::Lit(v1)).drop_first() + r1),
        codes(b, s1, step_ops(c, Step::Lit(v2)).drop_first() + r2),
    ensures
        v1 == v2,
{
    vstd::arithmetic::power2::lemma2_to64();
    let mb = match_byte_of(c) as nat;
    let l1 = lit_ops(c.tables.lit, lit_base(c.out), 1, v1 as nat, mb, c.state >= 7, 8);
    let l2 = lit_ops(c.tables.lit, lit_base(c.out), 1, v2 as nat, mb, c.state >= 7, 8);
    let a = RcOp::Bit { p: c.tables.is_match[match_index(c)], bit: 0 };
    assert(step_ops(c, Step::Lit(v1)) == seq![a] + l1);
    assert(step_ops(c, Step::Lit(v2)) == seq![a] + l2);
    assert((seq![a] + l1).drop_first() =~= l1);
    assert((seq![a] + l2).drop_first() =~= l2);
    lemma_lit_det(b, s1, c.tables.lit, lit_base(c.out), 1, v1 as nat, v2 as nat, mb, c.state >= 7, 8, r1, r2);
    lemma_bits_eq(v1 as nat, v2 as nat, 8);
}

/// Two codings of one stream of a match step code the same match.
proof fn lemma_match_step_det(
    b: Seq<u8>,
    s1: Interval,
    c: Ctx,
    len1: nat,
    dist1: u32,
    slot1: u32,
    len2: nat,
    dist2: u32,
    slot2: u32,
    r1: Seq<RcOp>,
    r2: Seq<RcOp>,
)
    requires
        valid(s1),
        step_ok(c, Step::Match { len: len1, dist: dist1, slot: slot1 }),
        step_ok(c, Step::Match { len: len2, dist: dist2, slot: slot2 }),
        ops_ok(step_ops(c, Step::Match { len: len1, dist: dist1, slot: slot1 }).drop_first() + r1),
        ops_ok(step_ops(c, Step::Match { len: len2, dist: dist2, slot: slot2 }).drop_first() + r2),
        codes(b, s1, step_ops(c, Step::Match { len: len1, dist: dist1, slot: slot1 }).drop_first() + r1),
        codes(b, s1, step_ops(c, Step::Match { len: len2, dist: dist2, slot: slot2 }).drop_first() + r2),
    ensures
        len1 == len2 && dist1 == dist2 && slot1 == slot2,
{
    let ps = pos_state_at(c.out.len()) as nat;
    let t2 = flagged(c);
    let a = RcOp::Bit { p: c.tables.is_match[match_index(c)], bit: 1 };
    let bb = RcOp::Bit { p: c.tables.is_rep[c.state as int], bit: 0 };
    let lo1 = len_ops(t2.len, (len1 - 2) as nat, ps);
    let lo2 = len_ops(t2.len, (len2 - 2) as nat, ps);
    let t31 = Tables { len: super::model::len_after(t2.len, (len1 - 2) as nat, ps), ..t2 };
    let t32 = Tables { len: super::model::len_after(t2.len, (len2 - 2) as nat, ps), ..t2 };
    let do1 = dist_ops(t31, dist1, slot1, (len1 - 2) as nat);
    let do2 = dist_ops(t32, dist2, slot2, (len2 - 2) as nat);
    let x1 = step_ops(c, Step::Match { len: len1, dist: dist1, slot: slot1 }).drop_first();
    let x2 = step_ops(c, Step::Match { len: len2, dist: dist2, slot: slot2 }).drop_first();
    assert(x1 =~= seq![bb] + (lo1 + do1));
    assert(x2 =~= seq![bb] + (lo2 + do2));
    lemma_take_first(b, s1, bb, lo1 + do1, r1);
    lemma_take_first(b, s1, bb, lo2 + do2, r2);
    let s2 = step(s1, bb);
    assert((lo1 + do1) + r1 =~= lo1 + (do1 + r1));
    assert((lo2 + do2) + r2 =~= lo2 + (do2 + r2));
    lemma_len_det(b, s2, t2.len, (len1 - 2) as nat, (len2 - 2) as nat, ps, do1 + r1, do2 + r2);
    lemma_ops_ok_split(lo1, do1 + r1);
    lemma_ops_ok_split(lo2, do2 + r2);
    lemma_run(s2, lo1);
    lemma_codes_split(b, s2, lo1, do1 + r1);
    lemma_codes_split(b, s2, lo2, do2 + r2);
    lemma_dist_det(b, run(s2, lo1), t31, dist1, slot1, dist2, slot2, (len1 - 2) as nat, r1, r2);
}

/// Two codings of one stream whose first decisions are taken under the
/// same probability take the same first decision, and the rest of each is
/// coded from where it leaves the interval.
proof fn lemma_peel(b: Seq<u8>, s: Interval, y1: Seq<RcOp>, y2: Seq<RcOp>)
    requires
        valid(s),
        y1.len() > 0,
        y2.len() > 0,
        ops_ok(y1),
        ops_ok(y2),
        codes(b, s, y1),
        codes(b, s, y2),
        y1[0] matches RcOp::Bit { p: p1, .. } && y2[0] matches RcOp::Bit { p: p2, .. } && p1 == p2,
    ensures
        y1[0] == y2[0],
        valid(step(s, y1[0])),
        ops_ok(y1.drop_first()),
        ops_ok(y2.drop_first()),
        codes(b, step(s, y1[0]), y1.drop_first()),
        codes(b, step(s, y1[0]), y2.drop_first()),
{
    let e = Seq::<RcOp>::empty();
    assert((seq![y1[0]] + y1.drop_first()) + e =~= y1);
    assert((seq![y2[0]] + y2.drop_first()) + e =~= y2);
    assert(y1.drop_first() + e =~= y1.drop_first());
    assert(y2.drop_first() + e =~= y2.drop_first());
    lemma_take_first(b, s, y1[0], y1.drop_first(), e);
    lemma_take_first(b, s, y2[0], y2.drop_first(), e);
    lemma_same_bit(b, s, y1[0], y1.drop_first(), y2[0], y2.drop_first());
}

/// Which of the four most recent distances a short rep or repeated match
/// picks.
spec fn rep_which(st: Step) -> nat {
    match st {
        Step::Rep { which, .. } => which,
        _ => 0,
    }
}

/// The decisions after those that pick the distance: the length's, for a
/// repeated match.
spec fn rep_len_part(c: Ctx, st: Step) -> Seq<RcOp> {
    match st {
        Step::Rep { len, .. } => len_ops(c.tables.rep_len, (len - 2) as nat, pos_state_at(c.out.len()) as nat),
        _ => Seq::empty(),
    }
}

/// The length of a match of either kind.
spec fn len_of(st: Step) -> nat {
    match st {
        Step::Match { len, .. } => len,
        Step::Rep { len, .. } => len,
        _ => 0,
    }
}

/// A short rep's or repeated match's decisions after its `is_match` bit.
proof fn lemma_rep_tail(c: Ctx, st: Step, r: Seq<RcOp>)
    requires
        st is ShortRep || st is Rep,
    ensures
        ({
            let z = step_ops(c, st).drop_first() + r;
            &&& z.len() > 0
            &&& z[0] == (RcOp::Bit { p: c.tables.is_rep[c.state as int], bit: 1 })
            &&& z.drop_first() == rep_pick_ops(c.tables, c.state as int, match_index(c), rep_which(st), st is ShortRep)
                + (rep_len_part(c, st) + r)
        }),
{
    let z = step_ops(c, st).drop_first() + r;
    let w = step_ops(c, st) + r;
    match st {
        Step::ShortRep => lemma_short_rep_shape(c, r),
        Step::Rep { which, len } => lemma_rep_shape(c, which, len, r),
        _ => {},
    }
    assert(z =~= w.drop_first());
}

/// Two codings of one stream of a short rep or repeated match, after its
/// `is_match` bit, code the same step.
proof fn lemma_rep_step_det(b: Seq<u8>, s1: Interval, c: Ctx, st1: Step, st2: Step, r1: Seq<RcOp>, r2: Seq<RcOp>)
    requires
        valid(s1),
        st1 is ShortRep || st1 is Rep,
        st2 is ShortRep || st2 is Rep,
        step_ok(c, st1),
        step_ok(c, st2),
        ops_ok(step_ops(c, st1).drop_first() + r1),
        ops_ok(step_ops(c, st2).drop_first() + r2),
        codes(b, s1, step_ops(c, st1).drop_first() + r1),
        codes(b, s1, step_ops(c, st2).drop_first() + r2),
    ensures
        st1 == st2,
{
    let z1 = step_ops(c, st1).drop_first() + r1;
    let z2 = step_ops(c, st2).drop_first() + r2;
    lemma_rep_tail(c, st1, r1);
    lemma_rep_tail(c, st2, r2);
    lemma_peel(b, s1, z1, z2);
    let s2 = step(s1, z1[0]);
    let w1 = z1.drop_first();
    let w2 = z2.drop_first();
    let wh1 = rep_which(st1);
    let wh2 = rep_which(st2);
    let x1 = rep_len_part(c, st1) + r1;
    let x2 = rep_len_part(c, st2) + r2;
    let st = c.state as int;
    let li = match_index(c);
    lemma_pick_shape(c.tables, st, li, wh1, st1 is ShortRep, x1);
    lemma_pick_shape(c.tables, st, li, wh2, st2 is ShortRep, x2);
    lemma_peel(b, s2, w1, w2);
    let s3 = step(s2, w1[0]);
    let v1 = w1.drop_first();
    let v2 = w2.drop_first();
    lemma_peel(b, s3, v1, v2);
    let s4 = step(s3, v1[0]);
    let ps = pos_state_at(c.out.len()) as nat;
    let rl = c.tables.rep_len;
    if wh1 == 0 || wh1 == 1 {
        assert(v1.drop_first() == x1 && v2.drop_first() == x2);
        if st1 is Rep && st2 is Rep {
            let l1 = (len_of(st1) - 2) as nat;
            let l2 = (len_of(st2) - 2) as nat;
            lemma_len_det(b, s4, rl, l1, l2, ps, r1, r2);
        }
    } else {
        let u1 = v1.drop_first();
        let u2 = v2.drop_first();
        lemma_peel(b, s4, u1, u2);
        let s5 = step(s4, u1[0]);
        assert(u1.drop_first() == x1 && u2.drop_first() == x2);
        let l1 = (len_of(st1) - 2) as nat;
        let l2 = (len_of(st2) - 2) as nat;
        lemma_len_det(b, s5, rl, l1, l2, ps, r1, r2);
    }
}

/// The second decision of a match of either kind: its `is_rep` bit.
proof fn lemma_is_rep_op(c: Ctx, st: Step, r: Seq<RcOp>)
    requires
        !(st is Lit),
    ensures
        (step_ops(c, st).drop_first() + r).len() > 0,
        (step_ops(c, st).drop_first() + r)[0] == (RcOp::Bit {
            p: c.tables.is_rep[c.state as int],
            bit: if st is Match { 0u32 } else { 1u32 },
        }),
{
    let z = step_ops(c, st).drop_first() + r;
    let w = step_ops(c, st) + r;
    assert(z =~= w.drop_first());
    match st {
        Step::Match { len, dist, slot } => {
            let ps = pos_state_at(c.out.len()) as nat;
            let t2 = flagged(c);
            let t3 = Tables { len: super::model::len_after(t2.len, (len - 2) as nat, ps), ..t2 };
            let a = RcOp::Bit { p: c.tables.is_match[match_index(c)], bit: 1 };
            let bb = RcOp::Bit { p: c.tables.is_rep[c.state as int], bit: 0 };
            let lo = len_ops(t2.len, (len - 2) as nat, ps);
            let dop = dist_ops(t3, dist, slot, (len - 2) as nat);
            assert(w =~= seq![a] + (seq![bb] + (lo + (dop + r))));
            assert(w.drop_first() =~= seq![bb] + (lo + (dop + r)));
        },
        Step::ShortRep => lemma_short_rep_shape(c, r),
        Step::Rep { which, len } => lemma_rep_shape(c, which, len, r),
        _ => {},
    }
}

/// Two codings of one stream of a step, in one context, code the same step.
pub proof fn lemma_step_det(b: Seq<u8>, s: Interval, c: Ctx, st1: Step, st2: Step, r1: Seq<RcOp>, r2: Seq<RcOp>)
    requires
        valid(s),
        step_ok(c, st1),
        step_ok(c, st2),
        ops_ok(step_ops(c, st1) + r1),
        ops_ok(step_ops(c, st2) + r2),
        codes(b, s, step_ops(c, st1) + r1),
        codes(b, s, step_ops(c, st2) + r2),
    ensures
        st1 == st2,
{
    let im = c.tables.is_match[match_index(c)];
    let a1 = RcOp::Bit { p: im, bit: if st1 is Lit { 0u32 } else { 1u32 } };
    let a2 = RcOp::Bit { p: im, bit: if st2 is Lit { 0u32 } else { 1u32 } };
    let x1 = step_ops(c, st1).drop_first();
    let x2 = step_ops(c, st2).drop_first();
    assert(step_ops(c, st1) =~= seq![a1] + x1);
    assert(step_ops(c, st2) =~= seq![a2] + x2);
    lemma_take_first(b, s, a1, x1, r1);
    lemma_take_first(b, s, a2, x2, r2);
    lemma_same_bit(b, s, a1, x1 + r1, a2, x2 + r2);
    let s1 = step(s, a1);
    if st1 is Lit && st2 is Lit {
        lemma_lit_step_det(b, s1, c, st1->Lit_0, st2->Lit_0, r1, r2);
    } else if !(st1 is Lit) && !(st2 is Lit) {
        let y1 = x1 + r1;
        let y2 = x2 + r2;
        lemma_is_rep_op(c, st1, r1);
        lemma_is_rep_op(c, st2, r2);
        lemma_peel(b, s1, y1, y2);
        if st1 is Match && st2 is Match {
            lemma_match_step_det(
                b,
                s1,
                c,
                len_of(st1),
                st1->dist,
                st1->slot,
                len_of(st2),
                st2->dist,
                st2->slot,
                r1,
                r2,
            );
        } else if !(st1 is Match) && !(st2 is Match) {
            lemma_rep_step_det(b, s1, c, st1, st2, r1, r2);
        }
    }
}

/// Two codings of one stream, from one context, that spell output of the
/// same length spell the same output.
pub proof fn lemma_stream_det(b: Seq<u8>, s: Interval, c: Ctx, w1: Seq<Step>, w2: Seq<Step>)
    requires
        valid(s),
        steps_ok(c, w1),
        steps_ok(c, w2),
        ops_ok(stream_ops(c, w1)),
        ops_ok(stream_ops(c, w2)),
        codes(b, s, stream_ops(c, w1)),
        codes(b, s, stream_ops(c, w2)),
        after(c, w1).out.len() == after(c, w2).out.len(),
    ensures
        after(c, w1).out == after(c, w2).out,
    decreases w1.len(),
{
    lemma_after_grows(c, w1);
    lemma_after_grows(c, w2);
    if w1.len() > 0 && w2.len() > 0 {
        let n1 = step_next(c, w1[0]);
        let n2 = step_next(c, w2[0]);
        let rest1 = stream_ops(n1, w1.drop_first());
        let rest2 = stream_ops(n2, w2.drop_first());
        lemma_step_det(b, s, c, w1[0], w2[0], rest1, rest2);
        let so = step_ops(c, w1[0]);
        lemma_ops_ok_split(so, rest1);
        lemma_ops_ok_split(so, rest2);
        lemma_run(s, so);
        lemma_codes_split(b, s, so, rest1);
        lemma_codes_split(b, s, so, rest2);
        lemma_stream_det(b, run(s, so), n1, w1.drop_first(), w2.drop_first());
    }
}

/// A stream that codes `x1` and `x2` of one length codes one of them.
pub proof fn lemma_lzma_unique(body: Seq<u8>, x1: Seq<u8>, x2: Seq<u8>)
    requires
        lzma_body_of(body, x1),
        lzma_body_of(body, x2),
        x1.len() == x2.len(),
    ensures
        x1 == x2,
{
    let w1 = choose|steps: Seq<Step>|
        #![trigger after(init_ctx(), steps)]
        {
            &&& steps_ok(init_ctx(), steps)
            &&& after(init_ctx(), steps).out == x1
            &&& ops_ok(stream_ops(init_ctx(), steps))
            &&& codes(body, start(), stream_ops(init_ctx(), steps))
        };
    let w2 = choose|steps: Seq<Step>|
        #![trigger after(init_ctx(), steps)]
        {
            &&& steps_ok(init_ctx(), steps)
            &&& after(init_ctx(), steps).out == x2
            &&& ops_ok(stream_ops(init_ctx(), steps))
            &&& codes(body, start(), stream_ops(init_ctx(), steps))
        };
    assert(crate::snappy::pow256(0) == 1);
    lemma_stream_det(body, start(), init_ctx(), w1, w2);
}

} // verus!
