//! An LZMA1 stream as a sequence of steps: literals, new matches, short
//! reps and repeated matches, each coded by the probability model in the
//! context the steps before it leave (with `lc = 3, lp = 0, pb = 2`). The
//! encoder writes literals and new matches; the decoder reads back all four.
use super::decoder::state_after_literal;
use super::interval::{adapt, codes, ops_ok, start, RcOp};
use super::model::{
    dist_after, dist_ops, fresh_tables, len_after, len_ops, lit_ctx, lit_ops, lit_probs,
    slot_ok, Tables,
};
use crate::snappy::copy_bytes;
use vstd::prelude::*;

verus! {

/// One step of a stream: a literal byte; a new match of `len` bytes at
/// back-distance `dist + 1`, whose distance is coded in slot `slot`; a short
/// rep, one byte at the last distance; or a repeated match of `len` bytes
/// at the `which`-th most recent distance (0 to 3).
pub enum Step {
    Lit(u8),
    Match { len: nat, dist: u32, slot: u32 },
    ShortRep,
    Rep { which: nat, len: nat },
}

/// Where a stream stands after some steps: the bytes so far, the coder
/// state, the four most recent distances (less one), newest first, and the
/// probability tables.
pub struct Ctx {
    pub out: Seq<u8>,
    pub state: nat,
    pub rep0: nat,
    pub rep1: nat,
    pub rep2: nat,
    pub rep3: nat,
    pub tables: Tables,
}

/// Where every stream starts, with `lc = 3, lp = 0`.
pub open spec fn init_ctx() -> Ctx {
    Ctx { out: Seq::empty(), state: 0, rep0: 0, rep1: 0, rep2: 0, rep3: 0, tables: fresh_tables(0x1800) }
}

/// The `which`-th most recent distance (less one).
pub open spec fn rep_dist(c: Ctx, which: nat) -> nat {
    if which == 0 {
        c.rep0
    } else if which == 1 {
        c.rep1
    } else if which == 2 {
        c.rep2
    } else {
        c.rep3
    }
}

/// The tables once a repeated match is flagged: `is_match` and `is_rep`
/// both set.
pub open spec fn rep_flagged(c: Ctx) -> Tables {
    let i = match_index(c);
    let t1 = Tables { is_match: c.tables.is_match.update(i, adapt(c.tables.is_match[i], 1)), ..c.tables };
    Tables { is_rep: t1.is_rep.update(c.state as int, adapt(t1.is_rep[c.state as int], 1)), ..t1 }
}

/// The decisions that pick the distance of a repeated match in state `st`
/// (`li` indexes `is_rep0_long`): `is_rep_g0` clear for the last distance,
/// then `is_rep0_long` clear for a short rep and set for a longer one;
/// otherwise `is_rep_g0` set, then `is_rep_g1` clear for the second, or
/// `is_rep_g1` set and `is_rep_g2` clear for the third, set for the fourth.
pub open spec fn rep_pick_ops(t: Tables, st: int, li: int, which: nat, short: bool) -> Seq<RcOp> {
    let g0 = RcOp::Bit { p: t.is_rep_g0[st], bit: if which == 0 { 0u32 } else { 1u32 } };
    if which == 0 {
        seq![g0, RcOp::Bit { p: t.is_rep0_long[li], bit: if short { 0u32 } else { 1u32 } }]
    } else if which == 1 {
        seq![g0, RcOp::Bit { p: t.is_rep_g1[st], bit: 0 }]
    } else {
        seq![
            g0,
            RcOp::Bit { p: t.is_rep_g1[st], bit: 1 },
            RcOp::Bit { p: t.is_rep_g2[st], bit: if which == 2 { 0u32 } else { 1u32 } },
        ]
    }
}

/// The tables after the decisions of `rep_pick_ops`.
pub open spec fn rep_pick_after(t: Tables, st: int, li: int, which: nat, short: bool) -> Tables {
    let t0 = Tables {
        is_rep_g0: t.is_rep_g0.update(st, adapt(t.is_rep_g0[st], if which == 0 { 0u32 } else { 1u32 })),
        ..t
    };
    if which == 0 {
        Tables {
            is_rep0_long: t0.is_rep0_long.update(li, adapt(t0.is_rep0_long[li], if short { 0u32 } else { 1u32 })),
            ..t0
        }
    } else if which == 1 {
        Tables { is_rep_g1: t0.is_rep_g1.update(st, adapt(t0.is_rep_g1[st], 0)), ..t0 }
    } else {
        let t1 = Tables { is_rep_g1: t0.is_rep_g1.update(st, adapt(t0.is_rep_g1[st], 1)), ..t0 };
        Tables {
            is_rep_g2: t1.is_rep_g2.update(st, adapt(t1.is_rep_g2[st], if which == 2 { 0u32 } else { 1u32 })),
            ..t1
        }
    }
}

/// The pos state at output position `pos`, with `pb = 2`.
pub open spec fn pos_state_at(pos: nat) -> int {
    (pos % 4) as int
}

/// The byte before the next one, 0 at the start.
pub open spec fn byte_before(out: Seq<u8>) -> u8 {
    if out.len() == 0 {
        0
    } else {
        out.last()
    }
}

/// The byte the next literal is coded against after a match.
pub open spec fn match_byte_of(c: Ctx) -> u8 {
    if c.state >= 7 {
        c.out[c.out.len() - c.rep0 - 1]
    } else {
        0
    }
}

/// The start of the literal block the next literal is coded in.
pub open spec fn lit_base(out: Seq<u8>) -> int {
    lit_ctx(3, 0, out.len() as usize, byte_before(out)) * 0x300
}

/// The index of the next `is_match` bit.
pub open spec fn match_index(c: Ctx) -> int {
    c.state * 16 + pos_state_at(c.out.len())
}

/// The tables once a match is flagged: `is_match` set, `is_rep` clear.
pub open spec fn flagged(c: Ctx) -> Tables {
    let i = match_index(c);
    let t1 = Tables { is_match: c.tables.is_match.update(i, adapt(c.tables.is_match[i], 1)), ..c.tables };
    Tables { is_rep: t1.is_rep.update(c.state as int, adapt(t1.is_rep[c.state as int], 0)), ..t1 }
}

/// The decisions that code step `s` in context `c`.
pub open spec fn step_ops(c: Ctx, s: Step) -> Seq<RcOp> {
    let i = match_index(c);
    let im = c.tables.is_match[i];
    match s {
        Step::Lit(b) => seq![RcOp::Bit { p: im, bit: 0 }] + lit_ops(
            c.tables.lit,
            lit_base(c.out),
            1,
            b as nat,
            match_byte_of(c) as nat,
            c.state >= 7,
            8,
        ),
        Step::Match { len, dist, slot } => {
            let ps = pos_state_at(c.out.len()) as nat;
            let t2 = flagged(c);
            let t3 = Tables { len: len_after(t2.len, (len - 2) as nat, ps), ..t2 };
            seq![RcOp::Bit { p: im, bit: 1 }, RcOp::Bit { p: c.tables.is_rep[c.state as int], bit: 0 }]
                + len_ops(t2.len, (len - 2) as nat, ps) + dist_ops(t3, dist, slot, (len - 2) as nat)
        },
        Step::ShortRep => seq![
            RcOp::Bit { p: im, bit: 1 },
            RcOp::Bit { p: c.tables.is_rep[c.state as int], bit: 1 },
        ] + rep_pick_ops(c.tables, c.state as int, i, 0, true),
        Step::Rep { which, len } => seq![
            RcOp::Bit { p: im, bit: 1 },
            RcOp::Bit { p: c.tables.is_rep[c.state as int], bit: 1 },
        ] + rep_pick_ops(c.tables, c.state as int, i, which, false) + len_ops(
            c.tables.rep_len,
            (len - 2) as nat,
            pos_state_at(c.out.len()) as nat,
        ),
    }
}

/// The context after step `s`.
pub open spec fn step_next(c: Ctx, s: Step) -> Ctx {
    let i = match_index(c);
    match s {
        Step::Lit(b) => Ctx {
            out: c.out.push(b),
            state: state_after_literal(c.state),
            tables: Tables {
                is_match: c.tables.is_match.update(i, adapt(c.tables.is_match[i], 0)),
                lit: lit_probs(
                    c.tables.lit,
                    lit_base(c.out),
                    1,
                    b as nat,
                    match_byte_of(c) as nat,
                    c.state >= 7,
                    8,
                ),
                ..c.tables
            },
            ..c
        },
        Step::Match { len, dist, slot } => {
            let ps = pos_state_at(c.out.len()) as nat;
            let t2 = flagged(c);
            let t3 = Tables { len: len_after(t2.len, (len - 2) as nat, ps), ..t2 };
            Ctx {
                out: c.out + copy_bytes(c.out, dist as nat + 1, len),
                state: if c.state < 7 {
                    7
                } else {
                    10
                },
                rep0: dist as nat,
                rep1: c.rep0,
                rep2: c.rep1,
                rep3: c.rep2,
                tables: dist_after(t3, dist, slot, (len - 2) as nat),
            }
        },
        Step::ShortRep => Ctx {
            out: c.out.push(c.out[c.out.len() - c.rep0 - 1]),
            state: if c.state < 7 {
                9
            } else {
                11
            },
            tables: rep_pick_after(rep_flagged(c), c.state as int, i, 0, true),
            ..c
        },
        Step::Rep { which, len } => {
            let ps = pos_state_at(c.out.len()) as nat;
            let tp = rep_pick_after(rep_flagged(c), c.state as int, i, which, false);
            Ctx {
                out: c.out + copy_bytes(c.out, rep_dist(c, which) + 1, len),
                state: if c.state < 7 {
                    8
                } else {
                    11
                },
                rep0: rep_dist(c, which),
                rep1: if which == 0 {
                    c.rep1
                } else {
                    c.rep0
                },
                rep2: if which <= 1 {
                    c.rep2
                } else {
                    c.rep1
                },
                rep3: if which <= 2 {
                    c.rep3
                } else {
                    c.rep2
                },
                tables: Tables { rep_len: len_after(tp.rep_len, (len - 2) as nat, ps), ..tp },
            }
        },
    }
}

/// Step `s` can be taken in context `c`: a match is 2 to 273 bytes long,
/// reaches no further back than the output, and a new match's slot is its
/// distance's.
pub open spec fn step_ok(c: Ctx, s: Step) -> bool {
    match s {
        Step::Lit(b) => true,
        Step::Match { len, dist, slot } => {
            &&& 2 <= len <= 273
            &&& (dist as nat) < c.out.len()
            &&& dist < 0x1000_0000
            &&& slot_ok(dist, slot)
        },
        Step::ShortRep => c.rep0 < c.out.len(),
        Step::Rep { which, len } => {
            &&& which <= 3
            &&& 2 <= len <= 273
            &&& rep_dist(c, which) < c.out.len()
        },
    }
}

/// The decisions that code `steps` from context `c`.
pub open spec fn stream_ops(c: Ctx, steps: Seq<Step>) -> Seq<RcOp>
    decreases steps.len(),
{
    if steps.len() == 0 {
        Seq::empty()
    } else {
        step_ops(c, steps[0]) + stream_ops(step_next(c, steps[0]), steps.drop_first())
    }
}

/// The context after `steps` from `c`.
pub open spec fn after(c: Ctx, steps: Seq<Step>) -> Ctx
    decreases steps.len(),
{
    if steps.len() == 0 {
        c
    } else {
        after(step_next(c, steps[0]), steps.drop_first())
    }
}

/// Every step of `steps` can be taken in turn from `c`.
pub open spec fn steps_ok(c: Ctx, steps: Seq<Step>) -> bool
    decreases steps.len(),
{
    if steps.len() == 0 {
        true
    } else {
        step_ok(c, steps[0]) && steps_ok(step_next(c, steps[0]), steps.drop_first())
    }
}

/// `body` is the range-coded stream of some sequence of steps from the
/// start that spells `x`.
pub open spec fn lzma_body_of(body: Seq<u8>, x: Seq<u8>) -> bool {
    exists|steps: Seq<Step>|
        #![trigger after(init_ctx(), steps)]
        {
            &&& steps_ok(init_ctx(), steps)
            &&& after(init_ctx(), steps).out == x
            &&& ops_ok(stream_ops(init_ctx(), steps))
            &&& codes(body, start(), stream_ops(init_ctx(), steps))
        }
}

/// Appending a step to a run of steps.
pub proof fn lemma_after_push(c: Ctx, steps: Seq<Step>, s: Step)
    ensures
        after(c, steps.push(s)) == step_next(after(c, steps), s),
        stream_ops(c, steps.push(s)) == stream_ops(c, steps) + step_ops(after(c, steps), s),
        steps_ok(c, steps) && step_ok(after(c, steps), s) ==> steps_ok(c, steps.push(s)),
    decreases steps.len(),
{
    if steps.len() == 0 {
        assert(steps.push(s).drop_first() =~= Seq::<Step>::empty());
        assert(steps.push(s)[0] == s);
        assert(after(step_next(c, s), Seq::<Step>::empty()) == step_next(c, s));
        assert(after(c, steps) == c);
        assert(steps_ok(step_next(c, s), Seq::<Step>::empty()));
        assert(stream_ops(c, steps) == Seq::<RcOp>::empty());
        assert(stream_ops(step_next(c, s), Seq::<Step>::empty()) == Seq::<RcOp>::empty());
        assert(step_ops(c, s) + Seq::<RcOp>::empty() =~= step_ops(c, s));
        assert(Seq::<RcOp>::empty() + step_ops(c, s) =~= step_ops(c, s));
    } else {
        assert(steps.push(s)[0] == steps[0]);
        assert(steps.push(s).drop_first() =~= steps.drop_first().push(s));
        lemma_after_push(step_next(c, steps[0]), steps.drop_first(), s);
        let a = step_ops(c, steps[0]);
        let b = stream_ops(step_next(c, steps[0]), steps.drop_first());
        assert(a + (b + step_ops(after(c, steps), s)) =~= (a + b) + step_ops(after(c, steps), s));
    }
}


/// Every step adds at least one byte, and keeps what came before.
pub proof fn lemma_after_grows(c: Ctx, steps: Seq<Step>)
    requires
        steps_ok(c, steps),
    ensures
        after(c, steps).out.len() >= c.out.len() + steps.len(),
    decreases steps.len(),
{
    if steps.len() > 0 {
        let n = step_next(c, steps[0]);
        lemma_after_grows(n, steps.drop_first());
        match steps[0] {
            Step::Lit(b) => {},
            Step::Match { len, dist, slot } => {
                assert(copy_bytes(c.out, dist as nat + 1, len).len() == len);
            },
            Step::ShortRep => {},
            Step::Rep { which, len } => {
                assert(copy_bytes(c.out, rep_dist(c, which) + 1, len).len() == len);
            },
        }
    }
}

/// Splitting a run of steps at `j`.
pub proof fn lemma_split_at(c: Ctx, steps: Seq<Step>, j: int)
    requires
        0 <= j < steps.len(),
    ensures
        after(c, steps.take(j + 1)) == step_next(after(c, steps.take(j)), steps[j]),
        stream_ops(after(c, steps.take(j)), steps.skip(j)) == step_ops(after(c, steps.take(j)), steps[j])
            + stream_ops(after(c, steps.take(j + 1)), steps.skip(j + 1)),
        after(after(c, steps.take(j)), steps.skip(j)) == after(after(c, steps.take(j + 1)), steps.skip(j + 1)),
        steps_ok(after(c, steps.take(j)), steps.skip(j)) ==> step_ok(after(c, steps.take(j)), steps[j])
            && steps_ok(after(c, steps.take(j + 1)), steps.skip(j + 1)),
{
    assert(steps.take(j + 1) =~= steps.take(j).push(steps[j]));
    lemma_after_push(c, steps.take(j), steps[j]);
    assert(steps.skip(j)[0] == steps[j]);
    assert(steps.skip(j).drop_first() =~= steps.skip(j + 1));
}

/// A short rep's decisions: its `is_match` and `is_rep` bits, both set,
/// then those that pick the last distance for one byte.
pub proof fn lemma_short_rep_shape(c: Ctx, rest: Seq<RcOp>)
    ensures
        ({
            let ops = step_ops(c, Step::ShortRep) + rest;
            &&& ops.len() > 1
            &&& ops[0] == (RcOp::Bit { p: c.tables.is_match[match_index(c)], bit: 1 })
            &&& ops.drop_first()[0] == (RcOp::Bit { p: c.tables.is_rep[c.state as int], bit: 1 })
            &&& ops.drop_first().drop_first() == rep_pick_ops(
                c.tables,
                c.state as int,
                match_index(c),
                0,
                true,
            ) + (Seq::<RcOp>::empty() + rest)
        }),
{
    let a = RcOp::Bit { p: c.tables.is_match[match_index(c)], bit: 1 };
    let b = RcOp::Bit { p: c.tables.is_rep[c.state as int], bit: 1 };
    let pk = rep_pick_ops(c.tables, c.state as int, match_index(c), 0, true);
    let ops = step_ops(c, Step::ShortRep) + rest;
    assert(Seq::<RcOp>::empty() + rest =~= rest);
    assert(ops =~= seq![a] + (seq![b] + (pk + rest)));
    assert(ops.drop_first() =~= seq![b] + (pk + rest));
    assert(ops.drop_first().drop_first() =~= pk + rest);
}

/// A repeated match's decisions: its `is_match` and `is_rep` bits, both
/// set, then those that pick its distance, then its length's.
pub proof fn lemma_rep_shape(c: Ctx, which: nat, len: nat, rest: Seq<RcOp>)
    ensures
        ({
            let ops = step_ops(c, Step::Rep { which, len }) + rest;
            &&& ops.len() > 1
            &&& ops[0] == (RcOp::Bit { p: c.tables.is_match[match_index(c)], bit: 1 })
            &&& ops.drop_first()[0] == (RcOp::Bit { p: c.tables.is_rep[c.state as int], bit: 1 })
            &&& ops.drop_first().drop_first() == rep_pick_ops(
                c.tables,
                c.state as int,
                match_index(c),
                which,
                false,
            ) + (len_ops(c.tables.rep_len, (len - 2) as nat, pos_state_at(c.out.len()) as nat)
                + rest)
        }),
{
    let a = RcOp::Bit { p: c.tables.is_match[match_index(c)], bit: 1 };
    let b = RcOp::Bit { p: c.tables.is_rep[c.state as int], bit: 1 };
    let pk = rep_pick_ops(c.tables, c.state as int, match_index(c), which, false);
    let lo = len_ops(c.tables.rep_len, (len - 2) as nat, pos_state_at(c.out.len()) as nat);
    let ops = step_ops(c, Step::Rep { which, len }) + rest;
    assert(ops =~= seq![a] + (seq![b] + (pk + (lo + rest))));
    assert(ops.drop_first() =~= seq![b] + (pk + (lo + rest)));
    assert(ops.drop_first().drop_first() =~= pk + (lo + rest));
}

/// The decisions that pick a repeated distance, one at a time.
pub proof fn lemma_pick_shape(t: Tables, st: int, li: int, which: nat, short: bool, xr: Seq<RcOp>)
    ensures
        ({
            let ops = rep_pick_ops(t, st, li, which, short) + xr;
            &&& ops.len() > 1
            &&& ops[0] == (RcOp::Bit { p: t.is_rep_g0[st], bit: if which == 0 { 0u32 } else { 1u32 } })
            &&& which == 0 ==> ops.drop_first()[0] == (RcOp::Bit {
                p: t.is_rep0_long[li],
                bit: if short { 0u32 } else { 1u32 },
            }) && ops.drop_first().drop_first() == xr
            &&& which == 1 ==> ops.drop_first()[0] == (RcOp::Bit { p: t.is_rep_g1[st], bit: 0 })
                && ops.drop_first().drop_first() == xr
            &&& which >= 2 ==> ops.drop_first()[0] == (RcOp::Bit { p: t.is_rep_g1[st], bit: 1 })
                && ops.drop_first().drop_first().len() > 0
                && ops.drop_first().drop_first()[0] == (RcOp::Bit {
                p: t.is_rep_g2[st],
                bit: if which == 2 { 0u32 } else { 1u32 },
            }) && ops.drop_first().drop_first().drop_first() == xr
        }),
{
    let ops = rep_pick_ops(t, st, li, which, short) + xr;
    let pk = rep_pick_ops(t, st, li, which, short);
    if which <= 1 {
        assert(ops.drop_first() =~= seq![pk[1]] + xr);
        assert(ops.drop_first().drop_first() =~= xr);
    } else {
        assert(ops.drop_first() =~= seq![pk[1], pk[2]] + xr);
        assert(ops.drop_first().drop_first() =~= seq![pk[2]] + xr);
        assert(ops.drop_first().drop_first().drop_first() =~= xr);
    }
}

/// The state after a literal, for each of the twelve states.
pub open spec fn literal_next_states() -> Seq<nat> {
    seq![0nat, 0, 0, 0, 1, 2, 3, 4, 5, 6, 4, 5]
}

/// The state after a new match, for each of the twelve states.
pub open spec fn match_next_states() -> Seq<nat> {
    seq![7nat, 7, 7, 7, 7, 7, 7, 10, 10, 10, 10, 10]
}

/// The state after a repeated match, for each of the twelve states.
pub open spec fn rep_next_states() -> Seq<nat> {
    seq![8nat, 8, 8, 8, 8, 8, 8, 11, 11, 11, 11, 11]
}

/// The state after a short rep, for each of the twelve states.
pub open spec fn short_rep_next_states() -> Seq<nat> {
    seq![9nat, 9, 9, 9, 9, 9, 9, 11, 11, 11, 11, 11]
}

/// Each kind of step moves the coder state as the LZMA1 state tables say:
/// a literal back towards 0, a new match to 7 or 10, a repeated match to 8
/// or 11, a short rep to 9 or 11 (the second after a match of any kind).
pub proof fn law_state_transitions(c: Ctx, s: Step)
    requires
        c.state < 12,
    ensures
        step_next(c, s).state == match s {
            Step::Lit(_) => literal_next_states()[c.state as int],
            Step::Match { .. } => match_next_states()[c.state as int],
            Step::ShortRep => short_rep_next_states()[c.state as int],
            Step::Rep { .. } => rep_next_states()[c.state as int],
        },
        step_next(c, s).state < 12,
{
    assert(literal_next_states().len() == 12);
    assert(match_next_states().len() == 12);
    assert(rep_next_states().len() == 12);
    assert(short_rep_next_states().len() == 12);
}

/// After a repeated match or short rep, the distance it used is the most
/// recent, and the other three keep their order behind it; a new match
/// pushes its distance in front and drops the oldest.
pub proof fn law_rep_distances(c: Ctx, s: Step)
    ensures
        s matches Step::Rep { which, .. } ==> ({
            let n = step_next(c, s);
            let before = seq![c.rep0, c.rep1, c.rep2, c.rep3];
            let now = seq![n.rep0, n.rep1, n.rep2, n.rep3];
            which <= 3 ==> now == seq![before[which as int]] + before.remove(which as int)
        }),
        s is ShortRep ==> ({
            let n = step_next(c, s);
            n.rep0 == c.rep0 && n.rep1 == c.rep1 && n.rep2 == c.rep2 && n.rep3 == c.rep3
        }),
        s matches Step::Match { dist, .. } ==> ({
            let n = step_next(c, s);
            seq![n.rep0, n.rep1, n.rep2, n.rep3] == seq![dist as nat, c.rep0, c.rep1, c.rep2]
        }),
{
    if let Step::Rep { which, len } = s {
        let n = step_next(c, s);
        let before = seq![c.rep0, c.rep1, c.rep2, c.rep3];
        let now = seq![n.rep0, n.rep1, n.rep2, n.rep3];
        if which <= 3 {
            assert(now =~= seq![before[which as int]] + before.remove(which as int));
        }
    }
    if let Step::Match { dist, .. } = s {
        let n = step_next(c, s);
        assert(seq![n.rep0, n.rep1, n.rep2, n.rep3] =~= seq![dist as nat, c.rep0, c.rep1, c.rep2]);
    }
}

} // verus!
