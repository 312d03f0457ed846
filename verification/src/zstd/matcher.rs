//! Greedy match finder over a single-slot hash table.
//!
//! What it returns is a parse of the input into sequences: literals to copy
//! out, then a match to copy back from earlier in the input. Every match it
//! reports is one: replaying the parse from its own literals gives the
//! input back.
use super::frame::{bit_len, bit_length, lemma_bit_length};
use vstd::arithmetic::power2::{lemma2_to64, pow2};
use vstd::prelude::*;

verus! {

/// Shortest match worth emitting, and the number of bytes the table hashes.
pub const MIN_MATCH: usize = 4;

/// Longest match emitted, so that one sequence always fits in one block.
pub const MAX_MATCH: usize = 65536;

/// Empty slot in the hash table.
pub const NONE: u32 = 0xffff_ffff;

/// One parsed sequence: literals to copy out, then a match to copy back.
#[derive(Clone, Copy)]
pub struct Match {
    pub literal_len: usize,
    pub match_len: usize,
    /// Distance back from the end of the literals, in bytes.
    pub offset: usize,
}

/// Search effort, derived from the input size in [`Params::for_input`].
pub struct Params {
    pub hash_bits: u32,
}

/// The smallest `k` with `n <= 2^k`.
pub open spec fn ceil_log2_spec(n: nat) -> nat {
    if n <= 1 {
        0
    } else {
        bit_length((n - 1) as nat)
    }
}

/// The smallest `k` with `n <= 2^k`.
pub fn ceil_log2(n: usize) -> (r: u32)
    ensures
        r == ceil_log2_spec(n as nat),
        r <= 64,
{
    if n <= 1 {
        0
    } else {
        bit_len((n - 1) as u64)
    }
}

impl Params {
    /// One hash-table bit per input bit of length, between 10 and 18.
    pub fn for_input(len: usize) -> (r: Params)
        ensures
            r.hash_bits == (if ceil_log2_spec(len as nat) < 10 {
                10
            } else if ceil_log2_spec(len as nat) > 18 {
                18
            } else {
                ceil_log2_spec(len as nat)
            }),
    {
        let b = ceil_log2(len);
        let hash_bits = if b < 10 {
            10
        } else if b > 18 {
            18
        } else {
            b
        };
        Params { hash_bits }
    }
}

/// The four bytes at `pos`, little-endian.
pub open spec fn word_at(input: Seq<u8>, pos: int) -> nat {
    (input[pos] + 256 * input[pos + 1] + 65536 * input[pos + 2] + 16777216 * input[pos + 3]) as nat
}

/// The hash slot of the four bytes at `pos`: multiplicative hashing,
/// keeping the top `bits` bits of the 32-bit product.
pub open spec fn hash_spec(input: Seq<u8>, pos: int, bits: nat) -> nat {
    ((word_at(input, pos) * 2654435761) % 0x1_0000_0000) / pow2((32 - bits) as nat)
}

/// The hash slot of the four bytes at `pos`.
pub fn hash(input: &[u8], pos: usize, bits: u32) -> (r: usize)
    requires
        pos + 4 <= input@.len(),
        1 <= bits <= 31,
    ensures
        r == hash_spec(input@, pos as int, bits as nat),
        r < pow2(bits as nat),
{
    let word: u32 = input[pos] as u32 + 256 * (input[pos + 1] as u32) + 65536 * (input[pos + 2] as u32)
        + 16777216 * (input[pos + 3] as u32);
    let product = word.wrapping_mul(2654435761);
    proof {
        lemma2_to64();
        vstd::bits::lemma_u32_shr_is_div(product, (32 - bits) as u32);
        vstd::arithmetic::power2::lemma_pow2_adds(bits as nat, (32 - bits) as nat);
        vstd::arithmetic::power2::lemma_pow2_pos((32 - bits) as nat);
        assert(product < pow2(bits as nat) * pow2((32 - bits) as nat));
        assert(pow2(bits as nat) * pow2((32 - bits) as nat) == pow2((32 - bits) as nat) * pow2(bits as nat)) by (nonlinear_arith);
        vstd::arithmetic::div_mod::lemma_multiply_divide_lt(
            product as int,
            pow2((32 - bits) as nat) as int,
            pow2(bits as nat) as int,
        );
        if bits < 31 {
            vstd::arithmetic::power2::lemma_pow2_strictly_increases(bits as nat, 31);
        }
    }
    (product >> (32 - bits)) as usize
}

/// The bytes at `a` and at `b` agree for `len` bytes.
pub open spec fn agree(input: Seq<u8>, a: int, b: int, len: int) -> bool {
    forall|k: int| 0 <= k < len ==> #[trigger] input[a + k] == input[b + k]
}

/// How many bytes at `a` and `b` agree, up to `limit`.
pub fn common_prefix(input: &[u8], a: usize, b: usize, limit: usize) -> (r: usize)
    requires
        a + limit <= input@.len(),
        b + limit <= input@.len(),
    ensures
        r <= limit,
        agree(input@, a as int, b as int, r as int),
        r < limit ==> input@[a + r] != input@[b + r],
        r == agree_len(input@, a as int, b as int, limit as int, 0),
{
    let mut len: usize = 0;
    while len < limit && input[a + len] == input[b + len]
        invariant
            len <= limit,
            a + limit <= input.len(),
            b + limit <= input.len(),
            a + limit <= input@.len(),
            b + limit <= input@.len(),
            agree(input@, a as int, b as int, len as int),
        decreases limit - len,
    {
        len = len + 1;
    }
    proof {
        lemma_agree_len_is(input@, a as int, b as int, limit as int, 0, len as int);
    }
    len
}

/// How far the bytes at `a` and at `b` agree, counting on from `l` and
/// stopping at `limit`.
pub open spec fn agree_len(input: Seq<u8>, a: int, b: int, limit: int, l: int) -> int
    decreases limit - l,
{
    if l >= limit || input[a + l] != input[b + l] {
        l
    } else {
        agree_len(input, a, b, limit, l + 1)
    }
}

/// The count is the length over which they agree, up to the first
/// disagreement below the limit.
proof fn lemma_agree_len_is(input: Seq<u8>, a: int, b: int, limit: int, l: int, r: int)
    requires
        0 <= l <= r <= limit,
        agree(input, a, b, r),
        r < limit ==> input[a + r] != input[b + r],
    ensures
        agree_len(input, a, b, limit, l) == r,
    decreases r - l,
{
    if l < r {
        assert(input[a + l] == input[b + l]);
        lemma_agree_len_is(input, a, b, limit, l + 1, r);
    }
}

/// The count ends between where it starts and the limit.
pub proof fn lemma_agree_len_bound(input: Seq<u8>, a: int, b: int, limit: int, l: int)
    requires
        l <= limit,
    ensures
        l <= agree_len(input, a, b, limit, l) <= limit,
    decreases limit - l,
{
    if l < limit && input[a + l] == input[b + l] {
        lemma_agree_len_bound(input, a, b, limit, l + 1);
    }
}

/// Each match copies bytes that are really there: after the literals, at
/// least [`MIN_MATCH`] bytes that agree with the bytes `offset` back, no
/// further back than `max_offset` nor before the start; the result is where
/// the last match ends, or `-1` where some match is not one.
pub open spec fn parse_end(input: Seq<u8>, ms: Seq<Match>, max_offset: int) -> int
    decreases ms.len(),
{
    if ms.len() == 0 {
        0
    } else {
        let e = parse_end(input, ms.drop_last(), max_offset);
        let m = ms.last();
        let p = e + m.literal_len;
        if e >= 0 && m.match_len >= MIN_MATCH && 1 <= m.offset <= max_offset && m.offset <= p && p
            + m.match_len <= input.len() && agree(input, p, p - m.offset, m.match_len as int) {
            p + m.match_len
        } else {
            -1
        }
    }
}

/// `ms` is a parse of `input` with offsets up to `max_offset`.
pub open spec fn valid_parse(input: Seq<u8>, ms: Seq<Match>, max_offset: int) -> bool {
    parse_end(input, ms, max_offset) >= 0
}

/// Copies `len` bytes, one at a time, from `offset` back in what has been
/// written so far; a copy may overlap what it writes.
pub open spec fn copy_back(s: Seq<u8>, offset: int, len: nat) -> Seq<u8>
    decreases len,
{
    if len == 0 {
        s
    } else {
        let t = copy_back(s, offset, (len - 1) as nat);
        t.push(t[t.len() - offset])
    }
}

/// What a decoder rebuilds from the sequences alone, taking each run of
/// literals from `input`.
pub open spec fn replay(input: Seq<u8>, ms: Seq<Match>) -> Seq<u8>
    decreases ms.len(),
{
    if ms.len() == 0 {
        Seq::empty()
    } else {
        let prev = replay(input, ms.drop_last());
        let m = ms.last();
        copy_back(
            prev + input.subrange(prev.len() as int, prev.len() + m.literal_len),
            m.offset as int,
            m.match_len as nat,
        )
    }
}

proof fn lemma_copy_back(input: Seq<u8>, p: int, offset: int, len: nat)
    requires
        1 <= offset <= p,
        p + len <= input.len(),
        agree(input, p, p - offset, len as int),
    ensures
        copy_back(input.subrange(0, p), offset, len) == input.subrange(0, p + len),
    decreases len,
{
    if len > 0 {
        lemma_copy_back(input, p, offset, (len - 1) as nat);
        let k = len - 1;
        assert(input[p + k] == input[p - offset + k]);
        assert(input.subrange(0, p + len) == input.subrange(0, p + k).push(input[p + k]));
    }
}

proof fn lemma_replay(input: Seq<u8>, ms: Seq<Match>, max_offset: int)
    requires
        valid_parse(input, ms, max_offset),
    ensures
        replay(input, ms) == input.subrange(0, parse_end(input, ms, max_offset)),
    decreases ms.len(),
{
    if ms.len() > 0 {
        let init = ms.drop_last();
        lemma_replay(input, init, max_offset);
        let e = parse_end(input, init, max_offset);
        let m = ms.last();
        let p = e + m.literal_len;
        assert(input.subrange(0, e) + input.subrange(e, p) == input.subrange(0, p));
        lemma_copy_back(input, p, m.offset as int, m.match_len as nat);
    }
}

/// Replaying a parse from its own literals, then the literals after its
/// last match, gives back the input it was made from.
pub proof fn law_parse_replays_input(input: Seq<u8>, ms: Seq<Match>, max_offset: int)
    requires
        valid_parse(input, ms, max_offset),
    ensures
        replay(input, ms) + input.subrange(replay(input, ms).len() as int, input.len() as int)
            == input,
{
    lemma_replay(input, ms, max_offset);
    lemma_parse_end_bound(input, ms, max_offset);
    assert(input.subrange(0, parse_end(input, ms, max_offset)) + input.subrange(
        parse_end(input, ms, max_offset),
        input.len() as int,
    ) == input);
}

proof fn lemma_parse_end_bound(input: Seq<u8>, ms: Seq<Match>, max_offset: int)
    requires
        valid_parse(input, ms, max_offset),
    ensures
        parse_end(input, ms, max_offset) <= input.len(),
    decreases ms.len(),
{
}

/// The hash table once the positions `from..to` are entered, in order,
/// each into the slot of its four bytes.
pub open spec fn table_fill(input: Seq<u8>, table: Seq<u32>, from: int, to: int, bits: nat) -> Seq<u32>
    decreases to - from,
{
    if to <= from {
        table
    } else {
        table_fill(input, table, from, to - 1, bits).update(
            hash_spec(input, to - 1, bits) as int,
            (to - 1) as u32,
        )
    }
}

/// The longest match `parse` tries at `pos` against candidate `cand`:
/// none where it is further back than `max_offset`, else as far as the two
/// agree, up to the end of the input and at most [`MAX_MATCH`] bytes.
pub open spec fn match_at(input: Seq<u8>, max_offset: int, cand: int, pos: int) -> int {
    if pos - cand <= max_offset {
        let limit = if input.len() - pos < MAX_MATCH {
            input.len() - pos
        } else {
            MAX_MATCH as int
        };
        agree_len(input, cand, pos, limit, 0)
    } else {
        0
    }
}

/// The greedy parse from `pos`, with literals pending from `anchor` and
/// hash table `table`: each position with four bytes left looks up the
/// last position whose four bytes share its slot and takes its place; a
/// match of at least [`MIN_MATCH`] bytes there is emitted, the positions
/// it covers are entered into the table, and the parse goes on after it;
/// otherwise the parse moves on one byte.
pub open spec fn greedy(input: Seq<u8>, max_offset: int, bits: nat, table: Seq<u32>, pos: int, anchor: int) -> Seq<
    Match,
>
    decreases input.len() - pos,
{
    if pos < 0 || pos + MIN_MATCH > input.len() {
        Seq::empty()
    } else {
        let slot = hash_spec(input, pos, bits) as int;
        let cand = table[slot];
        let t1 = table.update(slot, pos as u32);
        let ml = match_at(input, max_offset, cand as int, pos);
        if cand != NONE && ml >= MIN_MATCH {
            let last = input.len() - MIN_MATCH + 1;
            let end = if pos + ml < last {
                pos + ml
            } else {
                last
            };
            proof {
                if pos - cand <= max_offset {
                    let limit = if input.len() - pos < MAX_MATCH {
                        input.len() - pos
                    } else {
                        MAX_MATCH as int
                    };
                    lemma_agree_len_bound(input, cand as int, pos, limit, 0);
                }
            }
            seq![Match { literal_len: (pos - anchor) as usize, match_len: ml as usize, offset: (pos - cand) as usize }]
                + greedy(
                input,
                max_offset,
                bits,
                table_fill(input, t1, pos + 1, end, bits),
                pos + ml,
                pos + ml,
            )
        } else {
            greedy(input, max_offset, bits, t1, pos + 1, anchor)
        }
    }
}

/// What `parse` gives: the greedy parse from the start, over a table with
/// `2^bits` empty slots.
pub open spec fn greedy_parse(input: Seq<u8>, max_offset: int, bits: nat) -> Seq<Match> {
    greedy(input, max_offset, bits, Seq::new(pow2(bits), |i: int| NONE), 0, 0)
}

/// Parses `input` into sequences, taking matches no further back than
/// `max_offset` bytes.
pub fn parse(input: &[u8], max_offset: usize, params: &Params) -> (r: Vec<Match>)
    requires
        10 <= params.hash_bits <= 18,
        input@.len() < 0xffff_ffff,
    ensures
        valid_parse(input@, r@, max_offset as int),
        r@ == greedy_parse(input@, max_offset as int, params.hash_bits as nat),
{
    let ghost target = greedy_parse(input@, max_offset as int, params.hash_bits as nat);
    let len = input.len();
    let mut out: Vec<Match> = Vec::new();
    if len < MIN_MATCH {
        return out;
    }
    let last_hashable = len - MIN_MATCH + 1;
    proof {
        lemma2_to64();
        vstd::arithmetic::power2::lemma_pow2_strictly_increases(params.hash_bits as nat, 20);
        vstd::bits::lemma_usize_shl_is_mul(1, params.hash_bits as usize);
    }
    let size = 1usize << (params.hash_bits as usize);
    let mut table: Vec<u32> = vec![NONE; size];
    proof {
        assert(table@ == Seq::new(pow2(params.hash_bits as nat), |i: int| NONE));
    }
    let mut anchor: usize = 0;
    let mut pos: usize = 0;
    while pos < last_hashable
        invariant
            len == input@.len() < 0xffff_ffff,
            last_hashable == len - MIN_MATCH + 1,
            10 <= params.hash_bits <= 18,
            size == pow2(params.hash_bits as nat),
            table@.len() == size,
            forall|i: int| 0 <= i < size ==> #[trigger] table@[i] == NONE || table@[i] < pos,
            anchor <= pos <= len,
            parse_end(input@, out@, max_offset as int) == anchor,
            out@ + greedy(input@, max_offset as int, params.hash_bits as nat, table@, pos as int, anchor as int)
                == target,
        decreases len - pos,
    {
        let ghost rest = greedy(input@, max_offset as int, params.hash_bits as nat, table@, pos as int, anchor as int);
        let slot = hash(input, pos, params.hash_bits);
        let candidate = table[slot];
        table.set(slot, pos as u32);
        let ghost t1 = table@;
        if candidate != NONE {
            let at = candidate as usize;
            let match_len = if pos - at <= max_offset {
                let limit = if len - pos < MAX_MATCH {
                    len - pos
                } else {
                    MAX_MATCH
                };
                common_prefix(input, at, pos, limit)
            } else {
                0
            };
            if match_len >= MIN_MATCH {
                let m = Match { literal_len: pos - anchor, match_len, offset: pos - at };
                let ghost before = out@;
                out.push(m);
                proof {
                    assert(out@.drop_last() == before);
                    assert(agree(input@, pos as int, pos - (pos - at), match_len as int)) by {
                        assert forall|k: int| 0 <= k < match_len implies #[trigger] input@[pos + k]
                            == input@[pos - (pos - at) + k] by {
                            assert(input@[at + k] == input@[pos + k]);
                        }
                    }
                }
                // Positions covered by the match still have to reach the
                // table, or every match hides the text it just matched.
                let end = if pos + match_len < last_hashable {
                    pos + match_len
                } else {
                    last_hashable
                };
                let mut inside = pos + 1;
                while inside < end
                    invariant
                        inside <= end,
                        table@ == table_fill(input@, t1, pos + 1, inside as int, params.hash_bits as nat),
                        len == input@.len() < 0xffff_ffff,
                        last_hashable == len - MIN_MATCH + 1,
                        end <= last_hashable,
                        end <= pos + match_len,
                        pos < inside,
                        10 <= params.hash_bits <= 18,
                        table@.len() == size,
                        size == pow2(params.hash_bits as nat),
                        forall|i: int| 0 <= i < size ==> #[trigger] table@[i] == NONE || table@[i] < pos + match_len,
                    decreases end - inside,
                {
                    let h = hash(input, inside, params.hash_bits);
                    table.set(h, inside as u32);
                    inside = inside + 1;
                }
                proof {
                    assert(match_len == match_at(input@, max_offset as int, candidate as int, pos as int));
                    assert(rest == seq![m] + greedy(
                        input@,
                        max_offset as int,
                        params.hash_bits as nat,
                        table@,
                        pos + match_len,
                        pos + match_len,
                    ));
                    assert(out@ == before.push(m));
                    assert(before + (seq![m] + greedy(
                        input@,
                        max_offset as int,
                        params.hash_bits as nat,
                        table@,
                        pos + match_len,
                        pos + match_len,
                    )) == out@ + greedy(
                        input@,
                        max_offset as int,
                        params.hash_bits as nat,
                        table@,
                        pos + match_len,
                        pos + match_len,
                    ));
                }
                pos = pos + match_len;
                anchor = pos;
                continue;
            }
        }
        pos = pos + 1;
    }
    out
}

} // verus!
