//! LZMA1 encoder: a greedy hash-chain match finder feeding the probability
//! model and range encoder. It emits only literals and new matches (never
//! rep matches), a valid subset of LZMA1.
use super::model::{LzmaModel, MATCH_MAX_LEN, MATCH_MIN_LEN};
use super::interval::{
    codes, lemma_ops_ok_append, lemma_ops_ok_cons, lemma_run_append, lemma_run_cons, ops_ok, run, start,
    RcOp,
};
use super::model::{dist_ops, len_ops, lit_ops, lit_size};
use super::rangecoder::RangeEncoder;
use super::stream::{
    after, byte_before, flagged, init_ctx, lemma_after_push, lit_base, lzma_body_of, match_byte_of,
    match_index,
    pos_state_at, step_ops, steps_ok, stream_ops, Ctx, Step,
};
use crate::snappy::copy_bytes;
use vstd::prelude::*;

verus! {

/// Width of the match finder's hash.
pub const HASH_BITS: u32 = 16;
/// Number of hash heads.
pub const HASH_SIZE: usize = 0x1_0000;
/// An empty hash-chain link.
pub const NONE: u32 = 0xFFFF_FFFF;
/// Longest hash chain walked when looking for a match.
pub const MAX_CHAIN: u32 = 128;
/// Shortest match worth emitting.
pub const MIN_MATCH: usize = 3;

/// The length a dictionary must cover for an input of `n` bytes: at least
/// 4 KiB, and at most `2^31`, the largest power of two the header's 32-bit
/// field holds.
pub open spec fn clamped_len(n: usize) -> nat {
    if n < 0x1000 {
        0x1000
    } else if n > 0x8000_0000 {
        0x8000_0000
    } else {
        n as nat
    }
}

/// The dictionary size for `n`: the least power of two at least
/// `clamped_len(n)`.
pub open spec fn dict_size_of(n: usize) -> nat {
    choose|d: nat|
        #![trigger is_dict_for(n, d)]
        is_dict_for(n, d)
}

/// `d` is a power of two no smaller than the clamped length, and no larger
/// than it needs to be.
pub open spec fn is_dict_for(n: usize, d: nat) -> bool {
    &&& exists|k: nat| k <= 31 && d == vstd::arithmetic::power2::pow2(k)
    &&& d >= clamped_len(n)
    &&& d / 2 < clamped_len(n)
}

/// Dictionary size advertised in the header: the next power of two at least
/// as large as the input (at least 4 KiB, and at most `2^31`, the largest
/// power of two its 32-bit field holds).
pub fn dict_size(n: usize) -> (d: u32)
    ensures
        d >= clamped_len(n),
        d <= 0x8000_0000,
        d >= 0x1000,
        exists|k: nat| k <= 31 && d == vstd::arithmetic::power2::pow2(k),
        d / 2 < clamped_len(n),
        d == dict_size_of(n),
{
    let base: u32 = if n < 0x1000 {
        0x1000
    } else if n > 0x8000_0000 {
        0x8000_0000
    } else {
        n as u32
    };
    let mut p: u32 = 1;
    let mut k: u32 = 0;
    proof {
        vstd::arithmetic::power2::lemma2_to64();
    }
    while p < base
        invariant
            k <= 31,
            p == vstd::arithmetic::power2::pow2(k as nat),
            p / 2 < base,
            base <= 0x8000_0000,
            base >= 0x1000,
            base == clamped_len(n),
        decreases 31 - k,
    {
        proof {
            vstd::arithmetic::power2::lemma_pow2_unfold((k + 1) as nat);
            if k >= 31 {
                vstd::arithmetic::power2::lemma2_to64();
                vstd::arithmetic::power2::lemma_pow2_strictly_increases(31, k as nat);
            }
        }
        p = p * 2;
        k = k + 1;
    }
    proof {
        assert(is_dict_for(n, p as nat));
        lemma_dict_unique(n, p as nat, dict_size_of(n));
    }
    p
}

/// Only one power of two is at least the clamped length and at most twice
/// it less one.
proof fn lemma_dict_unique(n: usize, a: nat, b: nat)
    requires
        is_dict_for(n, a),
        exists|d: nat| is_dict_for(n, d),
        b == dict_size_of(n),
    ensures
        a == b,
{
    let c = clamped_len(n);
    assert(is_dict_for(n, b));
    let ka = choose|k: nat| k <= 31 && a == vstd::arithmetic::power2::pow2(k);
    let kb = choose|k: nat| k <= 31 && b == vstd::arithmetic::power2::pow2(k);
    if ka < kb {
        vstd::arithmetic::power2::lemma_pow2_adds(ka, (kb - ka - 1) as nat);
        vstd::arithmetic::power2::lemma_pow2_unfold(kb);
        vstd::arithmetic::power2::lemma_pow2_pos((kb - ka - 1) as nat);
        assert(b / 2 == vstd::arithmetic::power2::pow2((kb - 1) as nat));
        vstd::arithmetic::power2::lemma_pow2_strictly_increases(ka, kb);
        if ka < (kb - 1) as nat {
            vstd::arithmetic::power2::lemma_pow2_strictly_increases(ka, (kb - 1) as nat);
        }
        assert(false);
    } else if kb < ka {
        vstd::arithmetic::power2::lemma_pow2_unfold(ka);
        assert(a / 2 == vstd::arithmetic::power2::pow2((ka - 1) as nat));
        if kb < (ka - 1) as nat {
            vstd::arithmetic::power2::lemma_pow2_strictly_increases(kb, (ka - 1) as nat);
        }
        assert(false);
    }
}

/// The four bytes at `pos` as a little-endian 32-bit word.
pub open spec fn word4(input: Seq<u8>, pos: int) -> u32 {
    (input[pos] as u32) | ((input[pos + 1] as u32) << 8) | ((input[pos + 2] as u32) << 16) | ((
    input[pos + 3] as u32) << 24)
}

/// The hash slot of the four bytes at `pos`: multiplicative hashing,
/// keeping the top sixteen bits of the 32-bit product.
pub open spec fn chain_slot(input: Seq<u8>, pos: int) -> usize {
    (vstd::wrapping::u32_specs::wrapping_mul(word4(input, pos), 0x9E37_79B1) >> 16u32) as usize
}

/// A hash-table head for the four bytes at `input[pos..]`.
fn hash4(input: &[u8], pos: usize) -> (h: usize)
    requires
        pos + 4 <= input.len(),
    ensures
        h == chain_slot(input@, pos as int),
        h < HASH_SIZE,
{
    let x = (input[pos] as u32) | ((input[pos + 1] as u32) << 8) | ((input[pos + 2] as u32) << 16)
        | ((input[pos + 3] as u32) << 24);
    let y = x.wrapping_mul(0x9E37_79B1) >> 16;
    assert(y < 0x1_0000) by (bit_vector)
        requires
            y == x.wrapping_mul(0x9E37_79B1) >> 16,
    ;
    y as usize
}

/// The match finder's tables are consistent up to position `upto`: every
/// head names an earlier position, and every chain link points backwards.
pub open spec fn chains_ok(head: Seq<u32>, prev: Seq<u32>, upto: nat) -> bool {
    &&& head.len() == HASH_SIZE
    &&& forall|h: int| 0 <= h < HASH_SIZE ==> #[trigger] head[h] == NONE || head[h] < upto
    &&& forall|p: int| 0 <= p < prev.len() ==> #[trigger] prev[p] == NONE || prev[p] < p
}

/// How far `input[a..]` and `input[b..]` agree, counting on from `l` and
/// stopping at `max`.
pub open spec fn agree_from(input: Seq<u8>, a: int, b: int, max: int, l: int) -> int
    decreases max - l,
{
    if l >= max || input[a + l] != input[b + l] {
        l
    } else {
        agree_from(input, a, b, max, l + 1)
    }
}

/// Once the count stops, it is where the two disagree or at the cap.
proof fn lemma_agree_done(input: Seq<u8>, a: int, b: int, max: int, l: int)
    requires
        l >= max || input[a + l] != input[b + l],
    ensures
        agree_from(input, a, b, max, l) == l,
{
}

/// The count stops no later than a position `j` below the cap where the
/// two disagree.
proof fn lemma_agree_short(input: Seq<u8>, a: int, b: int, max: int, l: int, j: int)
    requires
        l <= j < max,
        input[a + j] != input[b + j],
    ensures
        agree_from(input, a, b, max, l) <= j,
    decreases max - l,
{
    if l < j && input[a + l] == input[b + l] {
        lemma_agree_short(input, a, b, max, l + 1, j);
    }
}

/// The best match along the chain from candidate `cand`, with `chain`
/// candidates left to try and `best` the longest so far: a candidate
/// further back than `window` ends the search, a longer agreement replaces
/// the best, and one that reaches the cap `max_len` ends the search.
pub open spec fn chain_best(
    input: Seq<u8>,
    pos: int,
    prev: Seq<u32>,
    window: int,
    max_len: int,
    cand: u32,
    chain: nat,
    best: (usize, usize),
) -> (usize, usize)
    decreases chain,
{
    if cand == NONE || chain == 0 {
        best
    } else if pos - cand > window {
        best
    } else {
        let l = agree_from(input, cand as int, pos, max_len, 0);
        if l > best.0 {
            if l == max_len {
                (l as usize, (pos - cand) as usize)
            } else {
                chain_best(
                    input,
                    pos,
                    prev,
                    window,
                    max_len,
                    prev[cand as int],
                    (chain - 1) as nat,
                    (l as usize, (pos - cand) as usize),
                )
            }
        } else {
            chain_best(input, pos, prev, window, max_len, prev[cand as int], (chain - 1) as nat, best)
        }
    }
}

/// What `find_match` gives: nothing where fewer than four bytes remain,
/// else the best match along the chain of the slot of the four bytes at
/// `pos`, trying at most `MAX_CHAIN` candidates and matching at most
/// `MATCH_MAX_LEN` bytes or up to the end of the input.
pub open spec fn found_match(input: Seq<u8>, pos: int, head: Seq<u32>, prev: Seq<u32>, window: int) -> (
    usize,
    usize,
) {
    if input.len() - pos < 4 {
        (0, 0)
    } else {
        let max_len = if input.len() - pos < MATCH_MAX_LEN {
            input.len() - pos
        } else {
            MATCH_MAX_LEN as int
        };
        chain_best(
            input,
            pos,
            prev,
            window,
            max_len,
            head[chain_slot(input, pos) as int],
            MAX_CHAIN as nat,
            (0, 0),
        )
    }
}

/// Finds the longest earlier match for the data at `pos` along the hash
/// chain, within `window` bytes back. Returns `(len, offset)`; a length
/// below `MIN_MATCH` means no usable match.
fn find_match(input: &[u8], pos: usize, head: &Vec<u32>, prev: &Vec<u32>, window: usize) -> (r: (
    usize,
    usize,
))
    requires
        pos <= input@.len(),
        prev@.len() == input@.len(),
        chains_ok(head@, prev@, pos as nat),
    ensures
        r.0 <= input@.len() - pos,
        r.0 <= MATCH_MAX_LEN,
        r.0 > 0 ==> 1 <= r.1 <= pos && r.1 <= window,
        forall|k: int| 0 <= k < r.0 ==> input@[pos - r.1 + k] == #[trigger] input@[pos + k],
        r == found_match(input@, pos as int, head@, prev@, window as int),
{
    let n = input.len();
    if n - pos < 4 {
        return (0, 0);
    }
    let max_len = if n - pos < MATCH_MAX_LEN {
        n - pos
    } else {
        MATCH_MAX_LEN
    };
    let h = hash4(input, pos);
    let mut cand = head[h];
    let mut best_len: usize = 0;
    let mut best_off: usize = 0;
    let mut chain: u32 = MAX_CHAIN;
    let ghost target = found_match(input@, pos as int, head@, prev@, window as int);
    while cand != NONE && chain > 0
        invariant_except_break
            best_len < max_len,
            chain_best(input@, pos as int, prev@, window as int, max_len as int, cand, chain as nat, (
                best_len,
                best_off,
            )) == target,
        invariant
            n == input@.len(),
            pos + max_len <= n,
            max_len <= MATCH_MAX_LEN,
            prev@.len() == n,
            chains_ok(head@, prev@, pos as nat),
            cand == NONE || cand < pos,
            best_len <= max_len,
            best_len > 0 ==> 1 <= best_off <= pos && best_off <= window,
            forall|k: int| 0 <= k < best_len ==> input@[pos - best_off + k] == #[trigger] input@[pos
                + k],
        ensures
            (best_len, best_off) == target,
        decreases chain,
    {
        let c = cand as usize;
        if pos - c > window {
            break;
        }
        if best_len == 0 || input[c + best_len] == input[pos + best_len] {
            let mut l: usize = 0;
            while l < max_len && input[c + l] == input[pos + l]
                invariant
                    agree_from(input@, c as int, pos as int, max_len as int, l as int) == agree_from(
                        input@,
                        c as int,
                        pos as int,
                        max_len as int,
                        0,
                    ),
                    c < pos,
                    pos + max_len <= n,
                    n == input@.len(),
                    l <= max_len,
                    forall|k: int| 0 <= k < l ==> input@[c + k] == #[trigger] input@[pos + k],
                decreases max_len - l,
            {
                l = l + 1;
            }
            proof {
                lemma_agree_done(input@, c as int, pos as int, max_len as int, l as int);
            }
            if l > best_len {
                best_len = l;
                best_off = pos - c;
                assert forall|k: int| 0 <= k < best_len implies input@[pos - best_off + k]
                    == #[trigger] input@[pos + k] by {
                    assert(input@[c + k] == input@[pos + k]);
                }
                if l == max_len {
                    break;
                }
            }
        }
        else {
            proof {
                lemma_agree_short(input@, c as int, pos as int, max_len as int, 0, best_len as int);
            }
        }
        assert(prev@[c as int] == NONE || prev@[c as int] < c);
        cand = prev[c];
        chain = chain - 1;
    }
    (best_len, best_off)
}

/// The chain tables once position `pos` is threaded on: where four bytes
/// remain and the position fits a table entry, it becomes the head of its
/// slot and links to the former head.
pub open spec fn threaded(input: Seq<u8>, head: Seq<u32>, prev: Seq<u32>, pos: int) -> (Seq<u32>, Seq<
    u32,
>) {
    if input.len() - pos >= 4 && pos < NONE {
        let h = chain_slot(input, pos) as int;
        (head.update(h, pos as u32), prev.update(pos, head[h]))
    } else {
        (head, prev)
    }
}

/// The chain tables once every position in `start..end` is threaded on,
/// in order.
pub open spec fn threaded_range(input: Seq<u8>, head: Seq<u32>, prev: Seq<u32>, start: int, end: int) -> (
    Seq<u32>,
    Seq<u32>,
)
    decreases end - start,
{
    if end <= start {
        (head, prev)
    } else {
        let t = threaded_range(input, head, prev, start, end - 1);
        threaded(input, t.0, t.1, end - 1)
    }
}

/// Threads position `pos` onto its hash chain.
fn insert(input: &[u8], head: &mut Vec<u32>, prev: &mut Vec<u32>, pos: usize, n: usize)
    requires
        n == input@.len(),
        pos < n,
        old(prev)@.len() == n,
        chains_ok(old(head)@, old(prev)@, pos as nat),
    ensures
        final(prev)@.len() == n,
        chains_ok(final(head)@, final(prev)@, (pos + 1) as nat),
        (final(head)@, final(prev)@) == threaded(input@, old(head)@, old(prev)@, pos as int),
{
    if n - pos >= 4 && pos < NONE as usize {
        let h = hash4(input, pos);
        let p = head[h];
        prev.set(pos, p);
        head.set(h, pos as u32);
        assert forall|q: int| 0 <= q < prev@.len() implies #[trigger] prev@[q] == NONE || prev@[q]
            < q by {
            if q != pos {
                assert(prev@[q] == old(prev)@[q]);
            }
        }
        assert forall|g: int| 0 <= g < HASH_SIZE implies #[trigger] head@[g] == NONE || head@[g]
            < pos + 1 by {
            if g != h {
                assert(head@[g] == old(head)@[g]);
            }
        }
    }
}

/// Threads every position in `start..end` onto its chain.
fn insert_range(
    input: &[u8],
    head: &mut Vec<u32>,
    prev: &mut Vec<u32>,
    start: usize,
    end: usize,
    n: usize,
)
    requires
        n == input@.len(),
        start <= end <= n,
        old(prev)@.len() == n,
        chains_ok(old(head)@, old(prev)@, start as nat),
    ensures
        final(prev)@.len() == n,
        chains_ok(final(head)@, final(prev)@, end as nat),
        (final(head)@, final(prev)@) == threaded_range(
            input@,
            old(head)@,
            old(prev)@,
            start as int,
            end as int,
        ),
{
    let ghost head0 = head@;
    let ghost prev0 = prev@;
    let mut p = start;
    while p < end
        invariant
            n == input@.len(),
            start <= p <= end <= n,
            prev@.len() == n,
            chains_ok(head@, prev@, p as nat),
            (head@, prev@) == threaded_range(input@, head0, prev0, start as int, p as int),
        decreases end - p,
    {
        insert(input, head, prev, p, n);
        p = p + 1;
    }
}

/// The bytes a match repeats: `len` bytes from `off` back, where every one
/// equals the byte `off` before it, are the output's overlapping copy.
proof fn lemma_match_copy(input: Seq<u8>, i: int, off: int, len: int)
    requires
        1 <= off <= i,
        i + len <= input.len(),
        len >= 0,
        forall|k: int| 0 <= k < len ==> input[i - off + k] == #[trigger] input[i + k],
    ensures
        input.take(i + len) == input.take(i) + copy_bytes(input.take(i), off as nat, len as nat),
{
    let out = input.take(i);
    assert forall|k: int| 0 <= k < len implies input[i + k] == #[trigger] copy_bytes(out, off as nat, len as nat)[k]
        by {
        lemma_copy_index(input, i, off, len, k);
    }
    assert(input.take(i + len) =~= input.take(i) + copy_bytes(input.take(i), off as nat, len as nat)) by {
        assert forall|k: int| 0 <= k < i + len implies #[trigger] input.take(i + len)[k] == (input.take(i)
            + copy_bytes(input.take(i), off as nat, len as nat))[k] by {
            if k >= i {
                assert(input[i + (k - i)] == copy_bytes(out, off as nat, len as nat)[k - i]);
            }
        }
    }
}

proof fn lemma_copy_index(input: Seq<u8>, i: int, off: int, len: int, k: int)
    requires
        1 <= off <= i,
        i + len <= input.len(),
        0 <= k < len,
        forall|q: int| 0 <= q < len ==> input[i - off + q] == #[trigger] input[i + q],
    ensures
        input[i + k] == input.take(i)[i - off + k % off],
    decreases k,
{
    if k < off {
        assert(k % off == k) by {
            vstd::arithmetic::div_mod::lemma_small_mod(k as nat, off as nat);
        }
        assert(input[i - off + k] == input[i + k]);
    } else {
        lemma_copy_index(input, i, off, len, k - off);
        assert(input[i - off + k] == input[i + k]);
        assert((k - off) % off == k % off) by {
            vstd::arithmetic::div_mod::lemma_mod_sub_multiples_vanish(k, off);
        }
        assert(i - off + k == i + (k - off));
    }
}

/// Every match among `steps` copies from no further back than `dict`
/// bytes (a step's `dist` is the distance less one).
pub open spec fn within_window(steps: Seq<Step>, dict: nat) -> bool {
    forall|k: int|
        0 <= k < steps.len() ==> (#[trigger] steps[k] matches Step::Match { dist, .. } ==> dist + 1
            <= dict)
}

/// `body` codes `x` in steps whose matches all stay within `dict` bytes.
pub open spec fn lzma_body_within(body: Seq<u8>, x: Seq<u8>, dict: nat) -> bool {
    exists|steps: Seq<Step>|
        #![trigger after(init_ctx(), steps)]
        {
            &&& steps_ok(init_ctx(), steps)
            &&& after(init_ctx(), steps).out == x
            &&& ops_ok(stream_ops(init_ctx(), steps))
            &&& codes(body, start(), stream_ops(init_ctx(), steps))
            &&& within_window(steps, dict)
        }
}

/// Encodes `input` into a raw LZMA1 range-coded stream (no header), with
/// `lc = 3, lp = 0, pb = 2` and matches no further back than `dict` (the
/// match search itself looks back at most 128 MiB). The stream is the
/// coding of literals and new matches that spell `input`.
#[verifier::rlimit(100)]
pub fn encode(input: &[u8], dict: u32) -> (out: Vec<u8>)
    ensures
        lzma_body_of(out@, input@),
        lzma_body_within(out@, input@, dict as nat),
        input@.len() == 0 ==> out@ == seq![0u8, 0u8, 0u8, 0u8, 0u8],
{
    let n = input.len();
    let mut rc = RangeEncoder::new();
    let mut model = LzmaModel::new(3, 0, 2);
    let mut state: usize = 0;
    let mut rep0: u32 = 0;
    let mut rep1: u32 = 0;
    let mut rep2: u32 = 0;
    let mut rep3: u32 = 0;
    let mut head: Vec<u32> = Vec::new();
    while head.len() < HASH_SIZE
        invariant
            head@.len() <= HASH_SIZE,
            forall|h: int| 0 <= h < head@.len() ==> head@[h] == NONE,
        decreases HASH_SIZE - head.len(),
    {
        head.push(NONE);
    }
    let mut prev: Vec<u32> = Vec::new();
    while prev.len() < n
        invariant
            prev@.len() <= n,
            forall|p: int| 0 <= p < prev@.len() ==> prev@[p] == NONE,
        decreases n - prev.len(),
    {
        prev.push(NONE);
    }
    let window: usize = if dict > 0x800_0000 {
        0x800_0000
    } else {
        dict as usize
    };
    let mut i: usize = 0;
    let ghost mut steps: Seq<Step> = Seq::empty();
    proof {
        assert((1u32 << 0u32) == 1 && (1usize << 2usize) == 4) by {
            crate::bits::lemma_shift_consts();
        }
        vstd::arithmetic::power2::lemma2_to64();
        assert(lit_size(3, 0) == 0x1800);
        assert(input@.take(0) =~= Seq::<u8>::empty());
        assert(after(init_ctx(), steps) == init_ctx());
        assert(stream_ops(init_ctx(), steps) == Seq::<RcOp>::empty());
        assert(run(start(), Seq::<RcOp>::empty()) == start());
    }
    while i < n
        invariant
            n == input@.len(),
            i <= n,
            rc.wf(),
            model.wf(),
            model.lc == 3,
            model.lp_mask == 0,
            model.pb_mask == 3,
            state < 12,
            state >= 7 ==> (rep0 as nat) < i,
            prev@.len() == n,
            chains_ok(head@, prev@, i as nat),
            window <= dict,
            window <= 0x800_0000,
            steps_ok(init_ctx(), steps),
            after(init_ctx(), steps) == (Ctx {
                out: input@.take(i as int),
                state: state as nat,
                rep0: rep0 as nat,
                rep1: rep1 as nat,
                rep2: rep2 as nat,
                rep3: rep3 as nat,
                tables: model.tables(),
            }),
            rc.interval() == run(start(), stream_ops(init_ctx(), steps)),
            ops_ok(stream_ops(init_ctx(), steps)),
            rc.shifts() <= 48 * i,
            within_window(steps, dict as nat),
            steps.len() <= i,
        decreases n - i,
    {
        let (mlen, moff) = find_match(input, i, &head, &prev, window);
        let pos_state = model.pos_state(i);
        let ghost c = after(init_ctx(), steps);
        let ghost ops0 = stream_ops(init_ctx(), steps);
        let ghost s0 = rc.interval();
        proof {
            crate::bits::lemma_and_mask(i, 3);
            assert(pos_state == i % 4);
            assert(pos_state as int == pos_state_at(c.out.len()));
            assert(c.out.len() == i);
        }
        if mlen >= MIN_MATCH {
            // A new match.
            model.encode_is_match(&mut rc, state, pos_state, 1);
            let ghost s1 = rc.interval();
            model.encode_is_rep(&mut rc, state, 0);
            let ghost s2 = rc.interval();
            let ghost t2 = model.tables();
            rep3 = rep2;
            rep2 = rep1;
            rep1 = rep0;
            let len_sym = mlen - MATCH_MIN_LEN;
            model.encode_new_len(&mut rc, len_sym, pos_state);
            let ghost s3 = rc.interval();
            let ghost t3 = model.tables();
            state = if state < 7 {
                7
            } else {
                10
            };
            let dist = (moff - 1) as u32;
            let slot = model.encode_distance(&mut rc, dist, len_sym);
            rep0 = dist;
            let ghost st = Step::Match { len: mlen as nat, dist, slot };
            proof {
                assert(t2 == flagged(c));
                let a = RcOp::Bit { p: c.tables.is_match[match_index(c)], bit: 1 };
                let b = RcOp::Bit { p: c.tables.is_rep[c.state as int], bit: 0 };
                let lo = len_ops(t2.len, len_sym as nat, pos_state as nat);
                let dop = dist_ops(t3, dist, slot, len_sym as nat);
                assert(step_ops(c, st) == seq![a, b] + lo + dop);
                assert(seq![a, b] + lo + dop =~= seq![a] + (seq![b] + (lo + dop)));
                lemma_run_cons(s0, a, seq![b] + (lo + dop));
                lemma_run_cons(s1, b, lo + dop);
                lemma_run_append(s2, lo, dop);
                lemma_ops_ok_append(lo, dop);
                lemma_ops_ok_cons(b, lo + dop);
                lemma_ops_ok_cons(a, seq![b] + (lo + dop));
                lemma_after_push(init_ctx(), steps, st);
                lemma_run_append(start(), ops0, step_ops(c, st));
                lemma_ops_ok_append(ops0, step_ops(c, st));
                lemma_match_copy(input@, i as int, moff as int, mlen as int);
                assert(dist as nat + 1 == moff);
            }
            insert_range(input, &mut head, &mut prev, i, i + mlen, n);
            i = i + mlen;
            proof {
                let before = steps;
                steps = steps.push(st);
                assert forall|k: int| 0 <= k < steps.len() implies (#[trigger] steps[k] matches Step::Match {
                    dist,
                    ..
                } ==> dist + 1 <= dict) by {
                    if k < before.len() {
                        assert(steps[k] == before[k]);
                    }
                }
            }
        } else {
            // A literal.
            model.encode_is_match(&mut rc, state, pos_state, 0);
            let ghost s1 = rc.interval();
            let prev_byte = if i == 0 {
                0
            } else {
                input[i - 1]
            };
            let match_byte = if state >= 7 {
                input[i - rep0 as usize - 1]
            } else {
                0
            };
            model.encode_literal(&mut rc, i, prev_byte, state, input[i], match_byte);
            let ghost st = Step::Lit(input[i as int]);
            proof {
                assert(prev_byte == byte_before(c.out));
                assert(match_byte == match_byte_of(c));
                let a = RcOp::Bit { p: c.tables.is_match[match_index(c)], bit: 0 };
                let lo = lit_ops(c.tables.lit, lit_base(c.out), 1, input[i as int] as nat, match_byte as nat, c.state >= 7, 8);
                assert(step_ops(c, st) == seq![a] + lo);
                lemma_run_cons(s0, a, lo);
                lemma_ops_ok_cons(a, lo);
                lemma_after_push(init_ctx(), steps, st);
                lemma_run_append(start(), ops0, step_ops(c, st));
                lemma_ops_ok_append(ops0, step_ops(c, st));
                assert(input@.take(i + 1) =~= input@.take(i as int).push(input[i as int]));
            }
            state = if state < 4 {
                0
            } else if state < 10 {
                state - 3
            } else {
                state - 6
            };
            insert(input, &mut head, &mut prev, i, n);
            i = i + 1;
            proof {
                let before = steps;
                steps = steps.push(st);
                assert forall|k: int| 0 <= k < steps.len() implies (#[trigger] steps[k] matches Step::Match {
                    dist,
                    ..
                } ==> dist + 1 <= dict) by {
                    if k < before.len() {
                        assert(steps[k] == before[k]);
                    }
                }
            }
        }
    }
    proof {
        assert(rc.roomy(5)) by {
            assert(i <= usize::MAX);
        }
    }
    rc.flush();
    let out = rc.out;
    proof {
        let ops = stream_ops(init_ctx(), steps);
        assert(input@.take(n as int) =~= input@);
        assert(codes(out@, start(), ops));
        assert(steps_ok(init_ctx(), steps) && after(init_ctx(), steps).out == input@ && ops_ok(ops)
            && codes(out@, start(), ops));
        assert(within_window(steps, dict as nat));
        if n == 0 {
            assert(steps.len() == 0);
            assert(stream_ops(init_ctx(), steps) == Seq::<RcOp>::empty());
            lemma_be_zero(out@);
            assert(out@ =~= seq![0u8, 0u8, 0u8, 0u8, 0u8]);
        }
    }
    out
}

/// Bytes whose big-endian value is zero are all zero.
proof fn lemma_be_zero(b: Seq<u8>)
    requires
        super::interval::be(b) == 0,
    ensures
        forall|i: int| 0 <= i < b.len() ==> #[trigger] b[i] == 0,
    decreases b.len(),
{
    if b.len() > 0 {
        lemma_be_zero(b.drop_last());
        assert forall|i: int| 0 <= i < b.len() implies #[trigger] b[i] == 0 by {
            if i < b.len() - 1 {
                assert(b[i] == b.drop_last()[i]);
            }
        }
    }
}

} // verus!
