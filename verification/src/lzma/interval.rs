//! The range coder as arithmetic on whole numbers. Coding a sequence of
//! decisions narrows an interval `[low, low + range)`; every renormalization
//! scales the whole number line by 256. The coded stream is the final `low`
//! written big-endian, and every decision the decoder makes is read off the
//! window of the stream that the interval of that moment covers.
use super::rangecoder::{prob_after_one, prob_after_zero, prob_ok};
use vstd::arithmetic::power2::pow2;
use crate::snappy::pow256;
use vstd::prelude::*;

verus! {

/// One coded decision: a bit under an adaptive probability (out of 2048),
/// or a bit at a fixed one half.
pub enum RcOp {
    Bit { p: u16, bit: u32 },
    Direct { bit: u32 },
}

/// The coder's interval, with the number of renormalizations so far.
pub struct Interval {
    pub low: int,
    pub range: int,
    pub shifts: nat,
}

/// The interval before anything is coded.
pub open spec fn start() -> Interval {
    Interval { low: 0, range: 0xFFFF_FFFF, shifts: 0 }
}

/// A renormalization, if the range has fallen below `2^24`.
pub open spec fn renorm(s: Interval) -> Interval {
    if s.range < 0x100_0000 {
        Interval { low: s.low * 256, range: s.range * 256, shifts: s.shifts + 1 }
    } else {
        s
    }
}

/// Where a range is split for a bit of probability `p / 2048` of being 0.
pub open spec fn split(range: int, p: u16) -> int {
    (range / 2048) * (p as int)
}

/// The interval after one decision.
pub open spec fn step(s: Interval, op: RcOp) -> Interval {
    match op {
        RcOp::Bit { p, bit } => {
            let b = split(s.range, p);
            if bit == 0 {
                renorm(Interval { low: s.low, range: b, shifts: s.shifts })
            } else {
                renorm(Interval { low: s.low + b, range: s.range - b, shifts: s.shifts })
            }
        },
        RcOp::Direct { bit } => {
            let h = s.range / 2;
            if bit == 0 {
                renorm(Interval { low: s.low, range: h, shifts: s.shifts })
            } else {
                renorm(Interval { low: s.low + h, range: h, shifts: s.shifts })
            }
        },
    }
}

/// The interval after a sequence of decisions.
pub open spec fn run(s: Interval, ops: Seq<RcOp>) -> Interval
    decreases ops.len(),
{
    if ops.len() == 0 {
        s
    } else {
        run(step(s, ops[0]), ops.drop_first())
    }
}

/// A decision the coder can take: a bit, under a probability in its band.
pub open spec fn op_ok(op: RcOp) -> bool {
    match op {
        RcOp::Bit { p, bit } => prob_ok(p) && bit <= 1,
        RcOp::Direct { bit } => bit <= 1,
    }
}

/// Every decision of `ops` can be taken.
pub open spec fn ops_ok(ops: Seq<RcOp>) -> bool {
    forall|i: int| 0 <= i < ops.len() ==> op_ok(#[trigger] ops[i])
}

/// A reachable interval: the range is normalized and 32 bits wide at most,
/// and the interval lies inside the number line of its scale.
pub open spec fn valid(s: Interval) -> bool {
    &&& 0x100_0000 <= s.range <= 0xFFFF_FFFF
    &&& 0 <= s.low
    &&& s.low + s.range <= 0x1_0000_0000 * pow256(s.shifts)
}

/// The number that the bytes of `b` spell, most significant first.
pub open spec fn be(b: Seq<u8>) -> nat
    decreases b.len(),
{
    if b.len() == 0 {
        0
    } else {
        be(b.drop_last()) * 256 + b.last() as nat
    }
}

/// `b` is the stream that coding `ops` from `s` leaves: the final low end,
/// in as many bytes as there were renormalizations plus five.
pub open spec fn codes(b: Seq<u8>, s: Interval, ops: Seq<RcOp>) -> bool {
    let f = run(s, ops);
    &&& b.len() == f.shifts + 5
    &&& be(b) == f.low
}

pub proof fn lemma_pow256_add(a: nat, b: nat)
    ensures
        pow256(a + b) == pow256(a) * pow256(b),
    decreases a,
{
    if a > 0 {
        let a1 = (a - 1) as nat;
        lemma_pow256_add(a1, b);
        assert((a + b - 1) as nat == a1 + b);
        assert(pow256(a + b) == 256 * pow256(a1 + b));
        assert(pow256(a) == 256 * pow256(a1));
        let x = pow256(a1);
        let y = pow256(b);
        assert(256 * (x * y) == (256 * x) * y) by (nonlinear_arith);
    } else {
        assert(a + b == b);
        assert(pow256(a) == 1);
    }
}

pub proof fn lemma_pow256_pos(a: nat)
    ensures
        pow256(a) >= 1,
    decreases a,
{
    if a > 0 {
        lemma_pow256_pos((a - 1) as nat);
    }
}

/// One decision keeps the interval reachable, renormalizes at most once,
/// and lands inside the old interval, scaled.
pub proof fn lemma_step(s: Interval, op: RcOp)
    requires
        valid(s),
        op_ok(op),
    ensures
        valid(step(s, op)),
        step(s, op).shifts == s.shifts || step(s, op).shifts == s.shifts + 1,
        step(s, op).low >= s.low * pow256((step(s, op).shifts - s.shifts) as nat),
        step(s, op).low + step(s, op).range <= (s.low + s.range) * pow256(
            (step(s, op).shifts - s.shifts) as nat,
        ),
{
    let t = step(s, op);
    assert(pow256(1) == 256) by {
        reveal_with_fuel(pow256, 2);
    }
    assert(pow256(0) == 1);
    assert(pow256(s.shifts + 1) == 256 * pow256(s.shifts));
    let q = s.range / 2048;
    assert(q >= 0x2000 && q * 2048 <= s.range) by (nonlinear_arith)
        requires
            q == s.range / 2048,
            s.range >= 0x100_0000,
    ;
    assert(q * 31 >= 0x2_0000) by (nonlinear_arith)
        requires
            q >= 0x2000,
    ;
    let u: Interval = match op {
        RcOp::Bit { p, bit } => {
            let b = split(s.range, p);
            assert(b >= 0x2_0000 && b + q * 31 <= s.range) by (nonlinear_arith)
                requires
                    b == q * (p as int),
                    31 <= p <= 2017,
                    q >= 0x2000,
                    q * 2048 <= s.range,
            ;
            if bit == 0 {
                Interval { low: s.low, range: b, shifts: s.shifts }
            } else {
                Interval { low: s.low + b, range: s.range - b, shifts: s.shifts }
            }
        },
        RcOp::Direct { bit } => {
            let h = s.range / 2;
            if bit == 0 {
                Interval { low: s.low, range: h, shifts: s.shifts }
            } else {
                Interval { low: s.low + h, range: h, shifts: s.shifts }
            }
        },
    };
    assert(t == renorm(u));
    assert(u.range >= 0x2_0000 && u.range <= s.range && u.low >= s.low && u.low + u.range <= s.low
        + s.range && u.shifts == s.shifts);
    if u.range < 0x100_0000 {
        assert(t.shifts == s.shifts + 1);
        assert((t.shifts - s.shifts) as nat == 1);
        assert(t.low == u.low * 256 && t.range == u.range * 256);
        assert(t.low >= s.low * 256 && t.low + t.range <= (s.low + s.range) * 256) by (nonlinear_arith)
            requires
                t.low == u.low * 256,
                t.range == u.range * 256,
                u.low >= s.low,
                u.low + u.range <= s.low + s.range,
        ;
        assert(0x1_0000_0000 * pow256(s.shifts + 1) == (0x1_0000_0000 * pow256(s.shifts)) * 256)
            by (nonlinear_arith)
            requires
                pow256(s.shifts + 1) == 256 * pow256(s.shifts),
        ;
        assert(t.low + t.range <= 0x1_0000_0000 * pow256(t.shifts));
        assert(t.range >= 0x100_0000 && t.range <= 0xFFFF_FFFF);
    } else {
        assert(t == u);
        assert((t.shifts - s.shifts) as nat == 0);
        assert(s.low * pow256(0) == s.low);
        assert((s.low + s.range) * pow256(0) == s.low + s.range);
    }
}

/// A run of decisions keeps the interval reachable and nests inside it,
/// renormalizing at most once per decision.
pub proof fn lemma_run(s: Interval, ops: Seq<RcOp>)
    requires
        valid(s),
        ops_ok(ops),
    ensures
        valid(run(s, ops)),
        s.shifts <= run(s, ops).shifts <= s.shifts + ops.len(),
        run(s, ops).low >= s.low * pow256((run(s, ops).shifts - s.shifts) as nat),
        run(s, ops).low + run(s, ops).range <= (s.low + s.range) * pow256(
            (run(s, ops).shifts - s.shifts) as nat,
        ),
    decreases ops.len(),
{
    if ops.len() == 0 {
        assert(pow256(0) == 1);
        assert(run(s, ops) == s);
        assert(s.low * pow256(0) == s.low);
        assert((s.low + s.range) * pow256(0) == s.low + s.range);
    } else {
        assert(op_ok(ops[0]));
        lemma_step(s, ops[0]);
        let t = step(s, ops[0]);
        let rest = ops.drop_first();
        assert(ops_ok(rest)) by {
            assert forall|i: int| 0 <= i < rest.len() implies op_ok(#[trigger] rest[i]) by {
                assert(rest[i] == ops[i + 1]);
            }
        }
        lemma_run(t, rest);
        let f = run(t, rest);
        let d1 = (t.shifts - s.shifts) as nat;
        let d2 = (f.shifts - t.shifts) as nat;
        lemma_pow256_add(d1, d2);
        lemma_pow256_pos(d1);
        lemma_pow256_pos(d2);
        assert(f.low >= s.low * pow256(d1 + d2)) by (nonlinear_arith)
            requires
                f.low >= t.low * pow256(d2),
                t.low >= s.low * pow256(d1),
                pow256(d1 + d2) == pow256(d1) * pow256(d2),
                pow256(d2) >= 1,
                s.low >= 0,
        ;
        assert(f.low + f.range <= (s.low + s.range) * pow256(d1 + d2)) by (nonlinear_arith)
            requires
                f.low + f.range <= (t.low + t.range) * pow256(d2),
                t.low + t.range <= (s.low + s.range) * pow256(d1),
                pow256(d1 + d2) == pow256(d1) * pow256(d2),
                pow256(d2) >= 1,
        ;
        assert((f.shifts - s.shifts) as nat == d1 + d2);
    }
}

pub proof fn lemma_be_push(b: Seq<u8>, x: u8)
    ensures
        be(b.push(x)) == be(b) * 256 + x as nat,
{
    assert(b.push(x).drop_last() =~= b);
}

/// The value of a stream is less than 256 to the power of its length.
pub proof fn lemma_be_bound(b: Seq<u8>)
    ensures
        be(b) < pow256(b.len()),
    decreases b.len(),
{
    if b.len() > 0 {
        lemma_be_bound(b.drop_last());
        assert(pow256(b.len()) == 256 * pow256((b.len() - 1) as nat));
        assert(be(b.drop_last()) * 256 + (b.last() as nat) < 256 * pow256((b.len() - 1) as nat))
            by (nonlinear_arith)
            requires
                be(b.drop_last()) < pow256((b.len() - 1) as nat),
                b.last() < 256,
        ;
    }
}

/// A prefix of a stream is the stream's value with its tail divided off.
pub proof fn lemma_be_take(b: Seq<u8>, n: nat)
    requires
        n <= b.len(),
    ensures
        be(b.take(n as int)) * pow256((b.len() - n) as nat) <= be(b),
        be(b) < (be(b.take(n as int)) + 1) * pow256((b.len() - n) as nat),
    decreases b.len() - n,
{
    if n == b.len() {
        assert(b.take(n as int) =~= b);
        assert(pow256(0) == 1);
        assert((b.len() - n) as nat == 0);
        assert(be(b.take(n as int)) == be(b));
    } else {
        let c = b.drop_last();
        lemma_be_take(c, n);
        assert(c.take(n as int) =~= b.take(n as int));
        let k = (c.len() - n) as nat;
        assert(pow256(k + 1) == 256 * pow256(k));
        assert((b.len() - n) as nat == k + 1);
        let t = be(b.take(n as int));
        assert(t * pow256(k + 1) <= be(b) && be(b) < (t + 1) * pow256(k + 1)) by (nonlinear_arith)
            requires
                t * pow256(k) <= be(c),
                be(c) < (t + 1) * pow256(k),
                be(b) == be(c) * 256 + b.last() as nat,
                b.last() < 256,
                pow256(k + 1) == 256 * pow256(k),
        ;
    }
}

/// The window of the stream at interval `s` lies inside `s`, whenever the
/// stream is what coding `ops` from `s` leaves.
pub proof fn lemma_window(b: Seq<u8>, s: Interval, ops: Seq<RcOp>)
    requires
        valid(s),
        ops_ok(ops),
        codes(b, s, ops),
    ensures
        s.shifts + 5 <= b.len(),
        s.low <= be(b.take(s.shifts + 5int)) < s.low + s.range,
{
    lemma_run(s, ops);
    let f = run(s, ops);
    let n = s.shifts + 5;
    let d = (f.shifts - s.shifts) as nat;
    assert((b.len() - n) as nat == d);
    lemma_be_take(b, n);
    lemma_pow256_pos(d);
    let w = be(b.take(n as int));
    let m = pow256(d);
    assert(s.low <= w < s.low + s.range) by (nonlinear_arith)
        requires
            w * m <= f.low,
            f.low < (w + 1) * m,
            f.low >= s.low * m,
            f.low + f.range <= (s.low + s.range) * m,
            f.range >= 1,
            m >= 1,
    ;
}

/// The value of the stream's first `n` bytes and its next byte.
pub proof fn lemma_be_take_next(b: Seq<u8>, n: int)
    requires
        0 <= n < b.len(),
    ensures
        be(b.take(n + 1)) == be(b.take(n)) * 256 + b[n] as nat,
{
    assert(b.take(n + 1).drop_last() =~= b.take(n));
}

/// A stream whose value fits below its last four bytes' worth starts with
/// a zero byte.
pub proof fn lemma_first_zero(b: Seq<u8>)
    requires
        b.len() >= 1,
        be(b) < pow256((b.len() - 1) as nat),
    ensures
        b[0] == 0,
{
    lemma_be_take(b, 1);
    let t = b.take(1);
    assert(t.drop_last() =~= Seq::<u8>::empty());
    assert(be(t.drop_last()) == 0);
    assert(be(t) == b[0] as nat);
    lemma_pow256_pos((b.len() - 1) as nat);
    assert(b[0] == 0) by (nonlinear_arith)
        requires
            (b[0] as nat) * pow256((b.len() - 1) as nat) <= be(b),
            be(b) < pow256((b.len() - 1) as nat),
    ;
}


/// Bit `k` of `v`.
pub open spec fn bit_at(v: nat, k: nat) -> u32 {
    ((v / pow2(k)) % 2) as u32
}

/// A probability after coding `bit` under it.
pub open spec fn adapt(p: u16, bit: u32) -> u16 {
    if bit == 0 {
        prob_after_zero(p)
    } else {
        prob_after_one(p)
    }
}

/// The decisions of the last `k` bits of `sym`, most significant first,
/// down a bit tree over `t[base + 1 ..]`, from node `m`.
pub open spec fn tree_ops(t: Seq<u16>, base: int, m: int, sym: nat, k: nat) -> Seq<RcOp>
    decreases k,
{
    if k == 0 {
        Seq::empty()
    } else {
        let b = bit_at(sym, (k - 1) as nat);
        let i = base + m;
        seq![RcOp::Bit { p: t[i], bit: b }] + tree_ops(
            t.update(i, adapt(t[i], b)),
            base,
            2 * m + b,
            sym,
            (k - 1) as nat,
        )
    }
}

/// The tree's probabilities after those decisions.
pub open spec fn tree_probs(t: Seq<u16>, base: int, m: int, sym: nat, k: nat) -> Seq<u16>
    decreases k,
{
    if k == 0 {
        t
    } else {
        let b = bit_at(sym, (k - 1) as nat);
        let i = base + m;
        tree_probs(t.update(i, adapt(t[i], b)), base, 2 * m + b, sym, (k - 1) as nat)
    }
}

/// The decisions of bits `j .. j + n` of `sym`, least significant first,
/// down a bit tree over `t[base + 1 ..]`, from node `m`.
pub open spec fn rtree_ops(t: Seq<u16>, base: int, m: int, sym: nat, j: nat, n: nat) -> Seq<RcOp>
    decreases n,
{
    if n == 0 {
        Seq::empty()
    } else {
        let b = bit_at(sym, j);
        let i = base + m;
        seq![RcOp::Bit { p: t[i], bit: b }] + rtree_ops(
            t.update(i, adapt(t[i], b)),
            base,
            2 * m + b,
            sym,
            j + 1,
            (n - 1) as nat,
        )
    }
}

/// The tree's probabilities after those decisions.
pub open spec fn rtree_probs(t: Seq<u16>, base: int, m: int, sym: nat, j: nat, n: nat) -> Seq<u16>
    decreases n,
{
    if n == 0 {
        t
    } else {
        let b = bit_at(sym, j);
        let i = base + m;
        rtree_probs(t.update(i, adapt(t[i], b)), base, 2 * m + b, sym, j + 1, (n - 1) as nat)
    }
}

/// The decisions of the last `k` bits of `v` at one half, most significant
/// first.
pub open spec fn direct_ops(v: nat, k: nat) -> Seq<RcOp>
    decreases k,
{
    if k == 0 {
        Seq::empty()
    } else {
        seq![RcOp::Direct { bit: bit_at(v, (k - 1) as nat) }] + direct_ops(v, (k - 1) as nat)
    }
}

/// Running a sequence whose first decision is `op`.
pub proof fn lemma_run_cons(s: Interval, op: RcOp, ops: Seq<RcOp>)
    ensures
        run(s, seq![op] + ops) == run(step(s, op), ops),
{
    assert((seq![op] + ops).drop_first() =~= ops);
    assert((seq![op] + ops)[0] == op);
}


/// A sequence of good decisions with one more good one in front.
pub proof fn lemma_ops_ok_cons(op: RcOp, ops: Seq<RcOp>)
    requires
        op_ok(op),
        ops_ok(ops),
    ensures
        ops_ok(seq![op] + ops),
{
    assert forall|i: int| 0 <= i < (seq![op] + ops).len() implies op_ok(#[trigger] (seq![op]
        + ops)[i]) by {
        if i > 0 {
            assert((seq![op] + ops)[i] == ops[i - 1]);
        }
    }
}

/// What is left of a sequence once its first decision is taken.
pub proof fn lemma_ops_ok_tail(ops: Seq<RcOp>)
    requires
        ops_ok(ops),
        ops.len() > 0,
    ensures
        ops_ok(ops.drop_first()),
        op_ok(ops[0]),
{
    assert forall|i: int| 0 <= i < ops.drop_first().len() implies op_ok(
        #[trigger] ops.drop_first()[i],
    ) by {
        assert(ops.drop_first()[i] == ops[i + 1]);
    }
}

pub proof fn lemma_tree_len(t: Seq<u16>, base: int, m: int, sym: nat, k: nat)
    ensures
        tree_ops(t, base, m, sym, k).len() == k,
    decreases k,
{
    if k > 0 {
        let b = bit_at(sym, (k - 1) as nat);
        lemma_tree_len(t.update(base + m, adapt(t[base + m], b)), base, 2 * m + b, sym, (k - 1) as nat);
    }
}

pub proof fn lemma_rtree_len(t: Seq<u16>, base: int, m: int, sym: nat, j: nat, n: nat)
    ensures
        rtree_ops(t, base, m, sym, j, n).len() == n,
    decreases n,
{
    if n > 0 {
        let b = bit_at(sym, j);
        lemma_rtree_len(t.update(base + m, adapt(t[base + m], b)), base, 2 * m + b, sym, j + 1, (n - 1) as nat);
    }
}

pub proof fn lemma_direct_len(v: nat, k: nat)
    ensures
        direct_ops(v, k).len() == k,
        ops_ok(direct_ops(v, k)),
    decreases k,
{
    if k > 0 {
        lemma_direct_len(v, (k - 1) as nat);
        lemma_ops_ok_cons(RcOp::Direct { bit: bit_at(v, (k - 1) as nat) }, direct_ops(v, (k - 1) as nat));
    }
}

/// Taking the first decision of `seq![op] + a + b` leaves `a + b`.
pub proof fn lemma_cons_tail(op: RcOp, a: Seq<RcOp>, b: Seq<RcOp>)
    ensures
        ((seq![op] + a) + b).drop_first() == a + b,
        ((seq![op] + a) + b)[0] == op,
        ((seq![op] + a) + b).len() > 0,
{
    assert(((seq![op] + a) + b).drop_first() =~= a + b);
}


/// `ops` begins with `pre`.
pub open spec fn starts_with(ops: Seq<RcOp>, pre: Seq<RcOp>) -> bool {
    pre.len() <= ops.len() && ops.take(pre.len() as int) == pre
}

/// Running two sequences one after the other.
pub proof fn lemma_run_append(s: Interval, a: Seq<RcOp>, b: Seq<RcOp>)
    ensures
        run(s, a + b) == run(run(s, a), b),
    decreases a.len(),
{
    if a.len() == 0 {
        assert(a + b =~= b);
    } else {
        assert((a + b)[0] == a[0]);
        assert((a + b).drop_first() =~= a.drop_first() + b);
        lemma_run_append(step(s, a[0]), a.drop_first(), b);
    }
}

/// A sequence that begins with `a + b` begins with `a`, and after `a`
/// with `b`.
pub proof fn lemma_starts_split(ops: Seq<RcOp>, a: Seq<RcOp>, b: Seq<RcOp>)
    requires
        starts_with(ops, a + b),
    ensures
        starts_with(ops, a),
        starts_with(ops.skip(a.len() as int), b),
        ops.skip(a.len() as int).skip(b.len() as int) == ops.skip((a.len() + b.len()) as int),
{
    assert(ops.take(a.len() as int) =~= (a + b).take(a.len() as int));
    assert((a + b).take(a.len() as int) =~= a);
    assert(ops.skip(a.len() as int).take(b.len() as int) =~= (a + b).skip(a.len() as int));
    assert((a + b).skip(a.len() as int) =~= b);
    assert(ops.skip(a.len() as int).skip(b.len() as int) =~= ops.skip((a.len() + b.len()) as int));
}

/// A sequence that begins with `a`, after which it begins with `b`, begins
/// with `a + b`.
pub proof fn lemma_starts_join(ops: Seq<RcOp>, a: Seq<RcOp>, b: Seq<RcOp>)
    requires
        starts_with(ops, a),
        starts_with(ops.skip(a.len() as int), b),
    ensures
        starts_with(ops, a + b),
{
    assert(ops.take((a + b).len() as int) =~= a + b) by {
        assert forall|i: int| 0 <= i < (a + b).len() implies ops[i] == (a + b)[i] by {
            if i < a.len() {
                assert(ops.take(a.len() as int)[i] == ops[i]);
            } else {
                assert(ops.skip(a.len() as int).take(b.len() as int)[i - a.len()] == ops[i]);
            }
        }
    }
}


/// Two sequences of good decisions, one after the other.
pub proof fn lemma_ops_ok_append(a: Seq<RcOp>, b: Seq<RcOp>)
    requires
        ops_ok(a),
        ops_ok(b),
    ensures
        ops_ok(a + b),
{
    assert forall|i: int| 0 <= i < (a + b).len() implies op_ok(#[trigger] (a + b)[i]) by {
        if i < a.len() {
            assert((a + b)[i] == a[i]);
        } else {
            assert((a + b)[i] == b[i - a.len()]);
        }
    }
}


/// A concatenation begins with its first part, and after it, the second.
pub proof fn lemma_prefix(a: Seq<RcOp>, b: Seq<RcOp>)
    ensures
        starts_with(a + b, a),
        (a + b).skip(a.len() as int) == b,
{
    assert((a + b).take(a.len() as int) =~= a);
    assert((a + b).skip(a.len() as int) =~= b);
}

} // verus!
