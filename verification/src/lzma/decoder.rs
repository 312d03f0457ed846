//! The LZMA1 decode loop: drives the range decoder and the probability
//! model through the literal / match / rep-match state machine, writing into
//! the output, which is also the window. Every read is bounds-checked, so
//! hostile input ends in an `Error`, never a panic or an over-long output.
use super::model::{LzmaModel, MATCH_MIN_LEN};
use super::interval::{codes, lemma_prefix, ops_ok, start, RcOp};
use super::model::{dist_ops, lemma_lit_len, len_after, len_ops, lit_ops, lit_size, Tables};
use super::rangecoder::RangeDecoder;
use super::stream::{
    after, byte_before, flagged, init_ctx, lemma_after_grows, lemma_split_at, lit_base,
    lzma_body_of, match_byte_of, match_index, pos_state_at, rep_dist, rep_flagged, rep_pick_after,
    rep_pick_ops, step_next, step_ok, step_ops, steps_ok, stream_ops, Ctx, Step,
    lemma_pick_shape, lemma_rep_shape, lemma_short_rep_shape,
};
use super::interval::starts_with;
use super::model::{rep_len_coded, LenView};
use super::unique::{lemma_len_det, lemma_lzma_unique};
use crate::error::Error;
use crate::snappy::copy_bytes;
use vstd::prelude::*;

verus! {

/// The state after a literal.
pub open spec fn state_after_literal(state: nat) -> nat {
    if state < 4 {
        0
    } else if state < 10 {
        (state - 3) as nat
    } else {
        (state - 6) as nat
    }
}

/// `body` codes some `n` bytes.
pub open spec fn codes_some(body: Seq<u8>, n: nat) -> bool {
    exists|x: Seq<u8>| lzma_body_of(body, x) && x.len() == n
}

/// The steps that a stream which codes `x` codes.
pub open spec fn steps_of(body: Seq<u8>, x: Seq<u8>) -> Seq<Step> {
    choose|steps: Seq<Step>|
        #![trigger after(init_ctx(), steps)]
        {
            &&& steps_ok(init_ctx(), steps)
            &&& after(init_ctx(), steps).out == x
            &&& ops_ok(stream_ops(init_ctx(), steps))
            &&& codes(body, start(), stream_ops(init_ctx(), steps))
        }
}

/// What the decoder loop keeps while it follows `steps` to `x`: after the
/// first `j` steps, its output, state, distances and tables are theirs, and
/// the range decoder awaits the rest.
#[verifier::opaque]
pub open spec fn follows(
    rc: RangeDecoder,
    model: LzmaModel,
    out: Seq<u8>,
    state: nat,
    rep0: nat,
    rep1: nat,
    rep2: nat,
    rep3: nat,
    steps: Seq<Step>,
    j: int,
    x: Seq<u8>,
) -> bool {
    let c = after(init_ctx(), steps.take(j));
    &&& 0 <= j <= steps.len()
    &&& rc.live@
    &&& rc.todo@ == stream_ops(c, steps.skip(j))
    &&& c == (Ctx { out, state, rep0, rep1, rep2, rep3, tables: model.tables() })
    &&& steps_ok(c, steps.skip(j))
    &&& after(c, steps.skip(j)).out == x
    &&& (state >= 7 ==> rep0 < out.len())
}

/// While output remains, the next step is there to decode.
proof fn lemma_follow_step(
    rc: RangeDecoder,
    model: LzmaModel,
    out: Seq<u8>,
    state: nat,
    rep0: nat,
    rep1: nat,
    rep2: nat,
    rep3: nat,
    steps: Seq<Step>,
    j: int,
    x: Seq<u8>,
)
    requires
        follows(rc, model, out, state, rep0, rep1, rep2, rep3, steps, j, x),
        out.len() < x.len(),
        rc.wf(),
    ensures
        0 <= j < steps.len(),
        rc.live@,
        rc.read_past == 0,
        ({
            let c = after(init_ctx(), steps.take(j));
            let n = after(init_ctx(), steps.take(j + 1));
            &&& c == (Ctx { out, state, rep0, rep1, rep2, rep3, tables: model.tables() })
            &&& rc.todo@ == step_ops(c, steps[j]) + stream_ops(n, steps.skip(j + 1))
            &&& step_ok(c, steps[j])
            &&& n == step_next(c, steps[j])
            &&& steps_ok(n, steps.skip(j + 1))
            &&& after(n, steps.skip(j + 1)).out == x
            &&& after(n, steps.skip(j + 1)).out.len() >= n.out.len()
        }),
        state >= 7 ==> rep0 < out.len(),
{
    reveal(follows);
    if j == steps.len() {
        assert(steps.skip(j) =~= Seq::<Step>::empty());
        assert(false);
    }
    lemma_split_at(init_ctx(), steps, j);
    lemma_after_grows(after(init_ctx(), steps.take(j + 1)), steps.skip(j + 1));
}

/// Having decoded step `j`, the decoder follows the rest.
proof fn lemma_follow_next(
    rc: RangeDecoder,
    model: LzmaModel,
    out: Seq<u8>,
    state: nat,
    rep0: nat,
    rep1: nat,
    rep2: nat,
    rep3: nat,
    steps: Seq<Step>,
    j: int,
    x: Seq<u8>,
)
    requires
        0 <= j < steps.len(),
        rc.live@,
        after(init_ctx(), steps.take(j + 1)) == (Ctx { out, state, rep0, rep1, rep2, rep3, tables: model.tables() }),
        rc.todo@ == stream_ops(after(init_ctx(), steps.take(j + 1)), steps.skip(j + 1)),
        steps_ok(after(init_ctx(), steps.take(j + 1)), steps.skip(j + 1)),
        after(after(init_ctx(), steps.take(j + 1)), steps.skip(j + 1)).out == x,
        state >= 7 ==> rep0 < out.len(),
    ensures
        follows(rc, model, out, state, rep0, rep1, rep2, rep3, steps, j + 1, x),
{
    reveal(follows);
}

/// A literal step's decisions: its `is_match` bit, then the literal's.
proof fn lemma_lit_shape(c: Ctx, v: u8, rest: Seq<RcOp>)
    ensures
        (step_ops(c, Step::Lit(v)) + rest).len() > 0,
        (step_ops(c, Step::Lit(v)) + rest)[0] == (RcOp::Bit { p: c.tables.is_match[match_index(c)], bit: 0 }),
        (step_ops(c, Step::Lit(v)) + rest).drop_first() == lit_ops(
            c.tables.lit,
            lit_base(c.out),
            1,
            v as nat,
            match_byte_of(c) as nat,
            c.state >= 7,
            8,
        ) + rest,
{
    let a = RcOp::Bit { p: c.tables.is_match[match_index(c)], bit: 0 };
    let lo = lit_ops(c.tables.lit, lit_base(c.out), 1, v as nat, match_byte_of(c) as nat, c.state >= 7, 8);
    assert(step_ops(c, Step::Lit(v)) + rest =~= seq![a] + (lo + rest));
    assert((seq![a] + (lo + rest)).drop_first() =~= lo + rest);
}

/// A match step's decisions: its `is_match` and `is_rep` bits, then its
/// length's, then its distance's.
proof fn lemma_match_shape(c: Ctx, len: nat, dist: u32, slot: u32, rest: Seq<RcOp>)
    ensures
        ({
            let ops = step_ops(c, Step::Match { len, dist, slot }) + rest;
            let ps = pos_state_at(c.out.len()) as nat;
            let t2 = flagged(c);
            let t3 = Tables { len: len_after(t2.len, (len - 2) as nat, ps), ..t2 };
            &&& ops.len() > 1
            &&& ops[0] == (RcOp::Bit { p: c.tables.is_match[match_index(c)], bit: 1 })
            &&& ops.drop_first()[0] == (RcOp::Bit { p: c.tables.is_rep[c.state as int], bit: 0 })
            &&& ops.drop_first().drop_first() == len_ops(t2.len, (len - 2) as nat, ps) + (dist_ops(
                t3,
                dist,
                slot,
                (len - 2) as nat,
            ) + rest)
        }),
{
    let ps = pos_state_at(c.out.len()) as nat;
    let t2 = flagged(c);
    let t3 = Tables { len: len_after(t2.len, (len - 2) as nat, ps), ..t2 };
    let a = RcOp::Bit { p: c.tables.is_match[match_index(c)], bit: 1 };
    let b = RcOp::Bit { p: c.tables.is_rep[c.state as int], bit: 0 };
    let lo = len_ops(t2.len, (len - 2) as nat, ps);
    let dop = dist_ops(t3, dist, slot, (len - 2) as nat);
    let ops = step_ops(c, Step::Match { len, dist, slot }) + rest;
    assert(ops =~= seq![a] + (seq![b] + (lo + (dop + rest))));
    assert(ops.drop_first() =~= seq![b] + (lo + (dop + rest)));
    assert(ops.drop_first().drop_first() =~= lo + (dop + rest));
}

/// Where the decoder follows the decisions of length `n` under the
/// repeated-match length tables `v`, the length it picks is `n`.
proof fn lemma_rep_len_pick(rc: RangeDecoder, v: LenView, n: nat, ps: nat, rest: Seq<RcOp>)
    requires
        rc.wf(),
        rc.live@,
        rc.todo@ == len_ops(v, n, ps) + rest,
        n < 272,
    ensures
        rep_len_coded(v, rc.todo@, ps) == n,
        starts_with(rc.todo@, len_ops(v, n, ps)),
        rc.todo@.skip(len_ops(v, n, ps).len() as int) == rest,
{
    lemma_prefix(len_ops(v, n, ps), rest);
    let m = rep_len_coded(v, rc.todo@, ps);
    assert(m < 272 && starts_with(rc.todo@, len_ops(v, m, ps)));
    let k = len_ops(v, m, ps).len() as int;
    let r2 = rc.todo@.skip(k);
    assert(rc.todo@ =~= len_ops(v, m, ps) + r2);
    lemma_len_det(rc.input@, rc.at@, v, n, m, ps, rest, r2);
}

/// Decodes the rest of a short rep or a repeated match, whose `is_match`
/// and `is_rep` bits (both set) have been read at pos state `pos_state`:
/// picks the distance among the four most recent, updating them, reads the
/// length, and copies. A decoder following step `st` from context `c`
/// reaches the context after it.
#[verifier::rlimit(100)]
fn decode_rep(
    rc: &mut RangeDecoder<'_>,
    model: &mut LzmaModel,
    out: &mut Vec<u8>,
    state: &mut usize,
    rep0: &mut u32,
    rep1: &mut u32,
    rep2: &mut u32,
    rep3: &mut u32,
    pos_state: usize,
    orig_len: usize,
    Ghost(valid): Ghost<bool>,
    Ghost(c): Ghost<Ctx>,
    Ghost(st): Ghost<Step>,
    Ghost(rest): Ghost<Seq<RcOp>>,
) -> (r: Result<(), Error>)
    requires
        old(rc).wf(),
        old(model).wf(),
        *old(state) < 12,
        pos_state < 16,
        old(out)@.len() < orig_len,
        valid ==> ({
            &&& old(rc).live@
            &&& (st is ShortRep || st is Rep)
            &&& step_ok(c, st)
            &&& c.out == old(out)@
            &&& c.state == *old(state) as nat
            &&& c.rep0 == *old(rep0) as nat
            &&& c.rep1 == *old(rep1) as nat
            &&& c.rep2 == *old(rep2) as nat
            &&& c.rep3 == *old(rep3) as nat
            &&& old(model).tables() == rep_flagged(c)
            &&& old(rc).todo@ == (step_ops(c, st) + rest).drop_first().drop_first()
            &&& pos_state as int == pos_state_at(c.out.len())
            &&& step_next(c, st).out.len() <= orig_len
        }),
    ensures
        final(rc).wf(),
        final(model).wf(),
        final(rc).input == old(rc).input,
        final(model).lc == old(model).lc && final(model).lp_mask == old(model).lp_mask
            && final(model).pb_mask == old(model).pb_mask,
        *final(state) < 12,
        final(out)@.len() <= orig_len,
        r is Ok ==> final(out)@.len() > old(out)@.len(),
        valid ==> r is Ok && final(rc).live@ && final(rc).todo@ == rest && step_next(c, st) == (Ctx {
            out: final(out)@,
            state: *final(state) as nat,
            rep0: *final(rep0) as nat,
            rep1: *final(rep1) as nat,
            rep2: *final(rep2) as nat,
            rep3: *final(rep3) as nat,
            tables: final(model).tables(),
        }),
        r is Ok && *final(state) >= 7 ==> (*final(rep0) as nat) < final(out)@.len(),
{
    let ghost which: nat = match st {
        Step::Rep { which, .. } => which,
        _ => 0nat,
    };
    let ghost short: bool = st is ShortRep;
    let ghost mlen: nat = match st {
        Step::Rep { len, .. } => len,
        _ => 2nat,
    };
    let ghost lens: Seq<RcOp> = if short {
        Seq::<RcOp>::empty()
    } else {
        len_ops(c.tables.rep_len, (mlen - 2) as nat, pos_state as nat)
    };
    let ghost xr = lens + rest;
    let ghost pk = rep_pick_ops(c.tables, c.state as int, match_index(c), which, short);
    proof {
        if valid {
            match st {
                Step::ShortRep => lemma_short_rep_shape(c, rest),
                Step::Rep { which, len } => lemma_rep_shape(c, which, len, rest),
                _ => {},
            }
            assert(rc.todo@ == pk + xr);
            lemma_pick_shape(c.tables, c.state as int, match_index(c), which, short, xr);
        }
    }
    if model.decode_is_rep_g0(rc, *state) == 0 {
        proof {
            if valid {
                assert(which == 0);
            }
        }
        if model.decode_is_rep0_long(rc, *state, pos_state) == 0 {
            // Short rep: a single byte at distance rep0 + 1.
            *state = if *state < 7 {
                9
            } else {
                11
            };
            if *rep0 as usize >= out.len() {
                return Err(Error::Corrupt);
            }
            let b = out[out.len() - *rep0 as usize - 1];
            out.push(b);
            proof {
                if valid {
                    assert(short);
                    assert(rest == xr);
                    assert(model.tables() == rep_pick_after(
                        rep_flagged(c),
                        c.state as int,
                        match_index(c),
                        0,
                        true,
                    ));
                }
            }
            return Ok(());
        }
        proof {
            if valid {
                assert(!short);
                assert(model.tables() == rep_pick_after(
                    rep_flagged(c),
                    c.state as int,
                    match_index(c),
                    which,
                    false,
                ));
            }
        }
    } else {
        let dist;
        if model.decode_is_rep_g1(rc, *state) == 0 {
            proof {
                if valid {
                    assert(which == 1);
                    assert(model.tables() == rep_pick_after(
                        rep_flagged(c),
                        c.state as int,
                        match_index(c),
                        which,
                        false,
                    ));
                }
            }
            dist = *rep1;
        } else {
            if model.decode_is_rep_g2(rc, *state) == 0 {
                dist = *rep2;
            } else {
                dist = *rep3;
                *rep3 = *rep2;
            }
            proof {
                if valid {
                    assert(which >= 2);
                    assert(model.tables() == rep_pick_after(
                        rep_flagged(c),
                        c.state as int,
                        match_index(c),
                        which,
                        false,
                    ));
                }
            }
            *rep2 = *rep1;
        }
        *rep1 = *rep0;
        *rep0 = dist;
    }
    proof {
        if valid {
            assert(rc.todo@ == lens + rest);
            assert(*rep0 as nat == rep_dist(c, which));
            assert(*rep1 as nat == step_next(c, st).rep1);
            assert(*rep2 as nat == step_next(c, st).rep2);
            assert(*rep3 as nat == step_next(c, st).rep3);
            assert(model.rep_len_coder.view() == c.tables.rep_len);
            lemma_rep_len_pick(*rc, c.tables.rep_len, (mlen - 2) as nat, pos_state as nat, rest);
        }
    }
    let len = model.decode_rep_len(rc, pos_state) + MATCH_MIN_LEN;
    *state = if *state < 7 {
        8
    } else {
        11
    };
    proof {
        if valid {
            assert(len == mlen);
            assert(copy_bytes(c.out, rep_dist(c, which) + 1, mlen).len() == mlen);
            assert(model.tables() == step_next(c, st).tables);
        }
    }
    match copy_match(out, *rep0, len, orig_len) {
        Ok(()) => {},
        Err(e) => {
            return Err(e);
        },
    }
    proof {
        if valid {
            assert(out@ == step_next(c, st).out);
            assert(*state as nat == step_next(c, st).state);
            assert(rc.live@);
            assert(rc.todo@ == rest);
        }
    }
    Ok(())
}

/// Decodes `orig_len` output bytes from the range-coded `stream`. With
/// `lc = 3, lp = 0, pb = 2`, a stream that codes `orig_len` bytes in
/// literals, new matches, short reps and repeated matches decodes to
/// exactly those bytes.
#[verifier::rlimit(100)]
pub fn decode(lc: u32, lp: u32, pb: u32, stream: &[u8], orig_len: usize) -> (r: Result<
    Vec<u8>,
    Error,
>)
    requires
        lc <= 8,
        lp <= 4,
        pb <= 4,
    ensures
        (stream@.len() < 5 || stream@[0] != 0) ==> r == Err::<Vec<u8>, Error>(Error::Corrupt),
        r matches Ok(v) ==> v@.len() == orig_len,
        lc == 3 && lp == 0 && pb == 2 && codes_some(stream@, orig_len as nat) ==> (r matches Ok(v)
            && lzma_body_of(stream@, v@)),
        lc == 3 && lp == 0 && pb == 2 ==> forall|y: Seq<u8>|
            #[trigger] lzma_body_of(stream@, y) && y.len() == orig_len ==> (r matches Ok(v) && v@ == y),
{
    let ghost valid = lc == 3 && lp == 0 && pb == 2 && codes_some(stream@, orig_len as nat);
    let ghost x = choose|x: Seq<u8>| lzma_body_of(stream@, x) && x.len() == orig_len;
    let ghost steps = steps_of(stream@, x);
    let ghost ops0 = stream_ops(init_ctx(), steps);
    proof {
        if valid {
            assert(lzma_body_of(stream@, x));
        }
    }
    let mut rc = match RangeDecoder::new(stream, Ghost(ops0)) {
        Some(rc) => rc,
        None => return Err(Error::Corrupt),
    };
    let mut model = LzmaModel::new(lc, lp, pb);
    let mut out: Vec<u8> = Vec::new();
    let mut state: usize = 0;
    let mut rep0: u32 = 0;
    let mut rep1: u32 = 0;
    let mut rep2: u32 = 0;
    let mut rep3: u32 = 0;
    let ghost mut j: int = 0;
    proof {
        if valid {
            assert((1u32 << 0u32) == 1 && (1usize << 2usize) == 4) by {
                crate::bits::lemma_shift_consts();
            }
            vstd::arithmetic::power2::lemma2_to64();
            assert(lit_size(3, 0) == 0x1800);
            assert(steps.take(0) =~= Seq::<Step>::empty());
            assert(steps.skip(0) =~= steps);
            assert(after(init_ctx(), steps.take(0)) == init_ctx());
            assert(out@ =~= Seq::<u8>::empty());
            reveal(follows);
            assert(follows(rc, model, out@, state as nat, rep0 as nat, rep1 as nat, rep2 as nat, rep3 as nat, steps, j, x));
        }
    }
    while out.len() < orig_len
        invariant
            rc.wf(),
            model.wf(),
            model.lc == lc,
            valid ==> model.lp_mask == 0 && model.pb_mask == 3 && model.lc == 3,
            state < 12,
            !(stream@.len() < 5 || stream@[0] != 0),
            out@.len() <= orig_len,
            rc.input@ == stream@,
            valid ==> follows(rc, model, out@, state as nat, rep0 as nat, rep1 as nat, rep2 as nat, rep3 as nat, steps, j, x),
            valid ==> x.len() == orig_len,
            valid == (lc == 3 && lp == 0 && pb == 2 && codes_some(stream@, orig_len as nat)),
        decreases orig_len - out@.len(),
    {
        let ghost c = after(init_ctx(), steps.take(j));
        let ghost st = steps[j];
        let ghost rest = stream_ops(after(init_ctx(), steps.take(j + 1)), steps.skip(j + 1));
        proof {
            if valid {
                lemma_follow_step(rc, model, out@, state as nat, rep0 as nat, rep1 as nat, rep2 as nat, rep3 as nat, steps, j, x);
            }
        }
        // A complete stream never asks for a byte it does not have, so the
        // moment it does it is over: this is what bounds the work by the
        // input rather than by the claimed length.
        if rc.read_past > 0 {
            return Err(Error::Truncated);
        }
        let pos_state = model.pos_state(out.len());
        proof {
            if valid {
                crate::bits::lemma_and_mask(out.len(), 3);
                assert(pos_state as int == pos_state_at(c.out.len()));
                match st {
                    Step::Lit(v) => lemma_lit_shape(c, v, rest),
                    Step::Match { len, dist, slot } => lemma_match_shape(c, len, dist, slot, rest),
                    Step::ShortRep => lemma_short_rep_shape(c, rest),
                    Step::Rep { which, len } => lemma_rep_shape(c, which, len, rest),
                }
            }
        }
        if model.decode_is_match(&mut rc, state, pos_state) == 0 {
            let prev = if out.len() == 0 {
                0
            } else {
                out[out.len() - 1]
            };
            let match_byte = if state >= 7 {
                if rep0 as usize >= out.len() {
                    return Err(Error::Corrupt);
                }
                out[out.len() - rep0 as usize - 1]
            } else {
                0
            };
            let ghost b: u8 = match st {
                Step::Lit(v) => v,
                _ => 0u8,
            };
            proof {
                if valid {
                    assert(st is Lit);
                    assert(prev == byte_before(c.out));
                    assert(match_byte == match_byte_of(c));
                    let lo = lit_ops(c.tables.lit, lit_base(c.out), 1, b as nat, match_byte as nat, c.state >= 7, 8);
                    lemma_prefix(lo, rest);
                    lemma_lit_len(c.tables.lit, lit_base(c.out), 1, b as nat, match_byte as nat, c.state >= 7, 8);
                }
            }
            let byte = model.decode_literal(&mut rc, out.len(), prev, state, match_byte, Ghost(b as nat));
            out.push(byte);
            state = if state < 4 {
                0
            } else if state < 10 {
                state - 3
            } else {
                state - 6
            };
            proof {
                if valid {
                    lemma_follow_next(rc, model, out@, state as nat, rep0 as nat, rep1 as nat, rep2 as nat, rep3 as nat, steps, j, x);
                    j = j + 1;
                }
            }
            continue ;
        }
        let len;
        if model.decode_is_rep(&mut rc, state) != 0 {
            match decode_rep(
                &mut rc,
                &mut model,
                &mut out,
                &mut state,
                &mut rep0,
                &mut rep1,
                &mut rep2,
                &mut rep3,
                pos_state,
                orig_len,
                Ghost(valid),
                Ghost(c),
                Ghost(st),
                Ghost(rest),
            ) {
                Ok(()) => {},
                Err(e) => {
                    return Err(e);
                },
            }
            proof {
                if valid {
                    lemma_follow_next(rc, model, out@, state as nat, rep0 as nat, rep1 as nat, rep2 as nat, rep3 as nat, steps, j, x);
                    j = j + 1;
                }
            }
            continue ;
        } else {
            // New match: the length comes first, then the distance.
            let ghost mlen: nat = match st {
                Step::Match { len, .. } => len,
                _ => 0nat,
            };
            let ghost mdist: u32 = match st {
                Step::Match { dist, .. } => dist,
                _ => 0u32,
            };
            let ghost mslot: u32 = match st {
                Step::Match { slot, .. } => slot,
                _ => 0u32,
            };
            let ghost t2 = model.tables();
            let ghost t3 = Tables { len: len_after(t2.len, (mlen - 2) as nat, pos_state as nat), ..t2 };
            let ghost lo = len_ops(t2.len, (mlen - 2) as nat, pos_state as nat);
            let ghost dop = dist_ops(t3, mdist, mslot, (mlen - 2) as nat);
            proof {
                if valid {
                    assert(st is Match);
                    assert(t2 == flagged(c));
                    lemma_prefix(lo, dop + rest);
                    lemma_prefix(dop, rest);
                }
            }
            rep3 = rep2;
            rep2 = rep1;
            rep1 = rep0;
            let len_sym = model.decode_new_len(&mut rc, pos_state, Ghost((mlen - 2) as nat));
            state = if state < 7 {
                7
            } else {
                10
            };
            rep0 = model.decode_distance(&mut rc, len_sym, Ghost(mdist), Ghost(mslot));
            if rep0 == 0xFFFF_FFFF {
                // The end-of-stream marker, never expected with a known size.
                return Err(Error::Corrupt);
            }
            len = len_sym + MATCH_MIN_LEN;
            proof {
                if valid {
                    assert(len == mlen);
                    assert(copy_bytes(c.out, mdist as nat + 1, mlen).len() == mlen);
                }
            }
        }
        match copy_match(&mut out, rep0, len, orig_len) {
            Ok(()) => {},
            Err(e) => {
                return Err(e);
            },
        }
        proof {
            if valid {
                lemma_follow_next(rc, model, out@, state as nat, rep0 as nat, rep1 as nat, rep2 as nat, rep3 as nat, steps, j, x);
                j = j + 1;
            }
        }
    }
    if rc.read_past > 0 {
        proof {
            if valid {
                reveal(follows);
            }
        }
        return Err(Error::Truncated);
    }
    proof {
        if valid {
            reveal(follows);
            let c = after(init_ctx(), steps.take(j));
            lemma_after_grows(c, steps.skip(j));
            assert(steps.skip(j).len() == 0);
            assert(after(c, steps.skip(j)) == c);
            assert(out@ == x);
            assert forall|y: Seq<u8>| #[trigger] lzma_body_of(stream@, y) && y.len() == orig_len implies out@
                == y by {
                lemma_lzma_unique(stream@, x, y);
            }
        }
    }
    Ok(out)
}

/// Copies a match of `len` bytes at back-distance `rep0 + 1`, byte by byte
/// so that overlapping copies repeat, refusing a distance past the start of
/// the window and any output longer than `orig_len`.
pub fn copy_match(out: &mut Vec<u8>, rep0: u32, len: usize, orig_len: usize) -> (r: Result<
    (),
    Error,
>)
    requires
        old(out)@.len() <= orig_len,
    ensures
        (rep0 as nat >= old(out)@.len() || old(out)@.len() + len > orig_len) ==> r
            == Err::<(), Error>(Error::Corrupt) && final(out)@ == old(out)@,
        !(rep0 as nat >= old(out)@.len() || old(out)@.len() + len > orig_len) ==> r is Ok
            && final(out)@ == old(out)@ + copy_bytes(old(out)@, rep0 as nat + 1, len as nat),
        final(out)@.len() <= orig_len,
        r is Ok ==> final(out)@.len() == old(out)@.len() + len,
{
    if rep0 as usize >= out.len() {
        return Err(Error::Corrupt);
    }
    if len > orig_len - out.len() {
        return Err(Error::Corrupt);
    }
    let dist = rep0 as usize + 1;
    let start = out.len() - dist;
    let ghost base = out@;
    let mut k: usize = 0;
    while k < len
        invariant
            k <= len,
            base == old(out)@,
            base.len() + len <= orig_len,
            start == base.len() - dist,
            dist == rep0 as nat + 1,
            1 <= dist <= base.len(),
            out@ == base + copy_bytes(base, dist as nat, k as nat),
        decreases len - k,
    {
        proof {
            vstd::arithmetic::div_mod::lemma_mod_bound(k as int, dist as int);
            if k >= dist {
                vstd::arithmetic::div_mod::lemma_mod_sub_multiples_vanish(k as int, dist as int);
            } else {
                vstd::arithmetic::div_mod::lemma_small_mod(k as nat, dist as nat);
            }
        }
        let cur = out.len();
        assert(cur == base.len() + k);
        let b = out[start + k];
        out.push(b);
        assert(out@ == base + copy_bytes(base, dist as nat, (k + 1) as nat));
        k = k + 1;
    }
    Ok(())
}

} // verus!
