//! Huffman coding of the literals section (RFC 8478, section 4.2): code
//! lengths, canonical codes, the direct weight header and the coded
//! streams.
use super::bitstream::{
    fields_fit, lemma_fit_push, lemma_push_tracks, marked_bytes, packed, width, BitWriter,
};
use super::sequences::encoder_ok;
use super::weights::{count_of, fse_codable, header_body, weights_codable, ALPHABET, LOG, MAX_SIZE};
use crate::fse::Encoder;
use vstd::arithmetic::power2::{lemma2_to64, pow2};
use vstd::prelude::*;

verus! {

/// Longest code the format allows.
pub const MAX_BITS: u32 = 11;

/// Most weights a direct header can carry: it states
/// `Number_of_Symbols = headerByte - 127`.
pub const MAX_DIRECT_WEIGHTS: usize = 128;

/// Below this many literals the tree description cannot pay for itself.
pub const MIN_LITERALS: usize = 256;

/// The weight of a code `len` bits long when the longest is `max_bits`:
/// zero for an absent symbol.
pub open spec fn weight_spec(len: u8, max_bits: u32) -> u8 {
    if len == 0 {
        0
    } else {
        ((max_bits + 1) - len) as u8
    }
}

/// The weight of a code `len` bits long when the longest is `max_bits`.
pub fn weight(len: u8, max_bits: u32) -> (r: u8)
    requires
        max_bits <= 254,
        len <= max_bits + 1,
    ensures
        r == weight_spec(len, max_bits),
{
    if len == 0 {
        0
    } else {
        (max_bits + 1) as u8 - len
    }
}

/// The direct header body: one weight per nibble, high nibble first, the
/// last one alone in its byte where the count is odd.
pub open spec fn direct_pairs(series: Seq<u8>) -> Seq<u8> {
    Seq::new(
        ((series.len() + 1) / 2) as nat,
        |i: int|
            (16 * series[2 * i] + if 2 * i + 1 < series.len() {
                series[2 * i + 1] as int
            } else {
                0
            }) as u8,
    )
}

/// Writes the direct representation: `127 + count`, then the weights in
/// nibbles.
pub fn write_direct(out: &mut Vec<u8>, series: &[u8])
    requires
        series@.len() <= MAX_DIRECT_WEIGHTS,
        forall|i: int| 0 <= i < series@.len() ==> #[trigger] series@[i] < 16,
        old(out)@.len() + 200 < usize::MAX,
    ensures
        final(out)@ == old(out)@.push((127 + series@.len()) as u8) + direct_pairs(series@),
{
    let n = series.len();
    out.push((127 + n) as u8);
    let ghost start = out@;
    let mut i: usize = 0;
    while i < n
        invariant
            n == series@.len() <= MAX_DIRECT_WEIGHTS,
            forall|k: int| 0 <= k < series@.len() ==> #[trigger] series@[k] < 16,
            i % 2 == 0,
            i <= n + 1,
            out@ == start + direct_pairs(series@).take(i as int / 2),
            start.len() + 199 < usize::MAX,
        decreases n + 2 - i,
    {
        let hi = series[i];
        let lo: u8 = if i + 1 < n {
            series[i + 1]
        } else {
            0
        };
        proof {
            crate::bits::lemma_nibbles(hi, lo);
        }
        out.push((hi << 4) | lo);
        proof {
            let p = direct_pairs(series@);
            assert(p[i as int / 2] == (hi << 4u8) | lo);
            assert(p.take(i as int / 2 + 1) == p.take(i as int / 2).push(p[i as int / 2]));
        }
        i = i + 2;
    }
    proof {
        assert(direct_pairs(series@).take(i as int / 2) == direct_pairs(series@));
    }
}

/// The fields of one Huffman stream, in writing order: the symbols last
/// first, each its code in its length.
pub open spec fn stream_fields(part: Seq<u8>, lengths: Seq<u8>, codes: Seq<u16>) -> Seq<(u32, u32)> {
    Seq::new(
        part.len(),
        |i: int|
            (
                codes[part[part.len() - 1 - i] as int] as u32,
                lengths[part[part.len() - 1 - i] as int] as u32,
            ),
    )
}

/// Codes one stream. Like every backward-read bitstream in the format, the
/// symbols go in last first.
pub fn write_stream(out: &mut Vec<u8>, part: &[u8], lengths: &Vec<u8>, codes: &Vec<u16>)
    requires
        lengths@.len() == 256,
        codes@.len() == 256,
        forall|b: int|
            0 <= b < 256 ==> #[trigger] lengths@[b] <= MAX_BITS && (codes@[b] as int) < pow2(
                lengths@[b] as nat,
            ),
        old(out)@.len() + 2 * part@.len() + 16 < usize::MAX,
    ensures
        final(out)@ == old(out)@ + marked_bytes(stream_fields(part@, lengths@, codes@)),
        marked_bytes(stream_fields(part@, lengths@, codes@)).len() <= 2 * part@.len() + 1,
{
    let mut bw = BitWriter::new();
    let n = part.len();
    let ghost fields = stream_fields(part@, lengths@, codes@);
    let mut k: usize = 0;
    proof {
        lemma2_to64();
        assert(fields.take(0) == Seq::<(u32, u32)>::empty());
    }
    while k < n
        invariant
            n == part@.len(),
            k <= n,
            lengths@.len() == 256,
            codes@.len() == 256,
            forall|b: int|
                0 <= b < 256 ==> #[trigger] lengths@[b] <= MAX_BITS && (codes@[b] as int) < pow2(
                    lengths@[b] as nat,
                ),
            fields == stream_fields(part@, lengths@, codes@),
            bw.wf(),
            bw.value() == packed(fields.take(k as int)),
            bw.len() == width(fields.take(k as int)),
            width(fields.take(k as int)) <= 11 * k,
            2 * n + 16 < usize::MAX,
            pow2(0) == 1,
        decreases n - k,
    {
        let byte = part[n - 1 - k];
        let f = (codes[byte as usize] as u32, lengths[byte as usize] as u32);
        proof {
            assert(fields[k as int] == f);
            lemma_push_tracks(0, 0, fields.take(k as int), f);
            assert(fields.take(k as int).push(f) == fields.take(k + 1));
        }
        bw.push(codes[byte as usize] as u32, lengths[byte as usize] as u32);
        k = k + 1;
    }
    proof {
        assert(fields.take(n as int) == fields);
        crate::le::lemma_le_bytes_len(
            (packed(fields) + pow2(width(fields))) as nat,
            (width(fields) + 8) / 8,
        );
    }
    let stream = bw.finish();
    let mut j: usize = 0;
    let ghost mid = out@;
    while j < stream.len()
        invariant
            j <= stream@.len(),
            out@ == mid + stream@.take(j as int),
        decreases stream@.len() - j,
    {
        out.push(stream[j]);
        j = j + 1;
        proof {
            assert(stream@.take(j as int) == stream@.take(j - 1).push(stream@[j - 1]));
        }
    }
    proof {
        assert(stream@.take(stream@.len() as int) == stream@);
    }
}

/// How many of the first `k` symbols have codes `b` bits long.
pub open spec fn count_len(lengths: Seq<u8>, b: int, k: int) -> nat
    decreases k,
{
    if k <= 0 {
        0
    } else {
        count_len(lengths, b, k - 1) + if lengths[k - 1] == b {
            1nat
        } else {
            0nat
        }
    }
}

/// The first code of length `b`: codes are handed out longest first,
/// counting up, and halved on the way to the next shorter length.
pub open spec fn start_code(lengths: Seq<u8>, b: int) -> nat
    decreases MAX_BITS - b,
{
    if b >= MAX_BITS {
        0
    } else {
        (start_code(lengths, b + 1) + count_len(lengths, b + 1, 256)) / 2
    }
}

/// The canonical code of symbol `s` (RFC 8478, section 4.2.1.3): the first
/// code of its length plus the number of lower symbols of that length;
/// zero for a symbol with no code.
pub open spec fn canonical_code(lengths: Seq<u8>, s: int) -> nat {
    if 1 <= lengths[s] <= MAX_BITS {
        start_code(lengths, lengths[s] as int) + count_len(lengths, lengths[s] as int, s)
    } else {
        0
    }
}

proof fn lemma_count_len_bound(lengths: Seq<u8>, b: int, k: int)
    requires
        0 <= k,
    ensures
        count_len(lengths, b, k) <= k,
    decreases k,
{
    if k > 0 {
        lemma_count_len_bound(lengths, b, k - 1);
    }
}

proof fn lemma_start_bound(lengths: Seq<u8>, b: int)
    ensures
        start_code(lengths, b) <= 256,
    decreases MAX_BITS - b,
{
    if b < MAX_BITS {
        lemma_start_bound(lengths, b + 1);
        lemma_count_len_bound(lengths, b + 1, 256);
    }
}

/// Canonical prefix codes: longest first, symbols in natural order within
/// a length, codes running upwards.
pub fn assign_codes(lengths: &Vec<u8>) -> (r: Vec<u16>)
    requires
        lengths@.len() == 256,
    ensures
        r@.len() == 256,
        forall|s: int| 0 <= s < 256 ==> #[trigger] r@[s] == canonical_code(lengths@, s),
{
    let mut codes: Vec<u16> = vec![0u16; 256];
    let mut code: u32 = 0;
    let mut bits: u8 = 11;
    while bits >= 1
        invariant
            lengths@.len() == 256,
            codes@.len() == 256,
            bits <= 11,
            code == start_code(lengths@, bits as int),
            forall|s: int|
                0 <= s < 256 ==> #[trigger] codes@[s] == (if bits < lengths@[s] <= MAX_BITS {
                    canonical_code(lengths@, s)
                } else {
                    0
                }),
        decreases bits,
    {
        let mut symbol: usize = 0;
        let ghost c0 = code;
        proof {
            lemma_start_bound(lengths@, bits as int);
        }
        while symbol < 256
            invariant
                lengths@.len() == 256,
                codes@.len() == 256,
                1 <= bits <= 11,
                c0 == start_code(lengths@, bits as int) <= 256,
                symbol <= 256,
                code == c0 + count_len(lengths@, bits as int, symbol as int),
                forall|s: int|
                    0 <= s < 256 ==> #[trigger] codes@[s] == (if bits < lengths@[s] <= MAX_BITS
                        || (lengths@[s] == bits && s < symbol) {
                        canonical_code(lengths@, s)
                    } else {
                        0
                    }),
            decreases 256 - symbol,
        {
            proof {
                lemma_count_len_bound(lengths@, bits as int, symbol as int);
            }
            if lengths[symbol] == bits {
                codes.set(symbol, code as u16);
                code = code + 1;
            }
            symbol = symbol + 1;
        }
        proof {
            vstd::bits::lemma_u32_shr_is_div(code, 1);
            lemma2_to64();
            lemma_count_len_bound(lengths@, bits as int, 256);
        }
        code = code >> 1;
        proof {
            assert(code == start_code(lengths@, bits - 1));
        }
        bits = bits - 1;
    }
    codes
}

/// How many of the first `k` symbols occur.
pub open spec fn occurring(freqs: Seq<u32>, k: int) -> nat
    decreases k,
{
    if k <= 0 {
        0
    } else {
        occurring(freqs, k - 1) + if freqs[k - 1] > 0 {
            1nat
        } else {
            0nat
        }
    }
}

proof fn lemma_occurring_bound(freqs: Seq<u32>, k: int)
    requires
        0 <= k,
    ensures
        occurring(freqs, k) <= k,
    decreases k,
{
    if k > 0 {
        lemma_occurring_bound(freqs, k - 1);
    }
}

/// Leaves ordered by weight, then by symbol.
pub open spec fn leaf_le(a: (u64, usize), b: (u64, usize)) -> bool {
    a.0 < b.0 || (a.0 == b.0 && a.1 <= b.1)
}

/// The leaves hold each occurring symbol with its weight.
pub open spec fn leaves_of(v: Seq<(u64, usize)>, freqs: Seq<u32>) -> bool {
    &&& forall|i: int|
        0 <= i < v.len() ==> (#[trigger] v[i]).1 < 256 && freqs[v[i].1 as int] > 0 && v[i].0
            == freqs[v[i].1 as int]
    &&& forall|s: int| 0 <= s < 256 && freqs[s] > 0 ==> exists|i: int| 0 <= i < v.len() && #[trigger] v[i].1 == s
    &&& forall|i: int, j: int| 0 <= i < j < v.len() ==> #[trigger] v[i].1 != #[trigger] v[j].1
}

/// Sorts the leaves by weight, then by symbol.
fn sort_leaves(v: &mut Vec<(u64, usize)>, Ghost(freqs): Ghost<Seq<u32>>)
    requires
        freqs.len() == 256,
        leaves_of(old(v)@, freqs),
    ensures
        final(v)@.len() == old(v)@.len(),
        leaves_of(final(v)@, freqs),
        forall|i: int, j: int| 0 <= i < j < final(v)@.len() ==> leaf_le(final(v)@[i], final(v)@[j]),
{
    let n = v.len();
    let mut i: usize = 1;
    if n == 0 {
        return;
    }
    while i < n
        invariant
            n == v@.len(),
            1 <= i <= n,
            freqs.len() == 256,
            leaves_of(v@, freqs),
            forall|a: int, b: int| 0 <= a < b < i ==> leaf_le(v@[a], v@[b]),
        decreases n - i,
    {
        let mut j: usize = i;
        while j > 0 && (v[j].0 < v[j - 1].0 || (v[j].0 == v[j - 1].0 && v[j].1 < v[j - 1].1))
            invariant
                n == v@.len(),
                j <= i < n,
                freqs.len() == 256,
                leaves_of(v@, freqs),
                forall|a: int, b: int| 0 <= a < b <= i && a != j && b != j ==> leaf_le(v@[a], v@[b]),
                forall|b: int| j < b <= i ==> leaf_le(v@[j as int], #[trigger] v@[b]),
            decreases j,
        {
            let a = v[j - 1];
            let b = v[j];
            let ghost before = v@;
            v.set(j - 1, b);
            v.set(j, a);
            proof {
                assert forall|x: int, y: int| 0 <= x < y <= i && x != j - 1 && y != j - 1 implies leaf_le(
                    v@[x],
                    v@[y],
                ) by {
                    let bx = if x == j {
                        j - 1
                    } else {
                        x
                    };
                    let by_ = if y == j {
                        j - 1
                    } else {
                        y
                    };
                    assert(v@[x] == before[bx]);
                    assert(v@[y] == before[by_]);
                }
                assert forall|y: int| j - 1 < y <= i implies leaf_le(v@[j - 1], #[trigger] v@[y]) by {
                    if y > j {
                        assert(v@[y] == before[y]);
                    }
                }
                assert forall|x: int, y: int| 0 <= x < y < v@.len() implies #[trigger] v@[x].1 != #[trigger] v@[y].1 by {
                    let bx = if x == j {
                        j - 1
                    } else if x == j - 1 {
                        j as int
                    } else {
                        x
                    };
                    let by_ = if y == j {
                        j - 1
                    } else if y == j - 1 {
                        j as int
                    } else {
                        y
                    };
                    assert(v@[x] == before[bx]);
                    assert(v@[y] == before[by_]);
                    if bx < by_ {
                        assert(before[bx].1 != before[by_].1);
                    } else {
                        assert(before[by_].1 != before[bx].1);
                    }
                }
                assert forall|s: int| 0 <= s < 256 && freqs[s] > 0 implies exists|k: int|
                    0 <= k < v@.len() && #[trigger] v@[k].1 == s by {
                    let k = choose|k: int| 0 <= k < before.len() && #[trigger] before[k].1 == s;
                    if k == j - 1 {
                        assert(v@[j as int].1 == s);
                    } else if k == j {
                        assert(v@[j - 1].1 == s);
                    } else {
                        assert(v@[k].1 == s);
                    }
                }
            }
            j = j - 1;
        }
        proof {
            assert forall|x: int, y: int| 0 <= x < y < i + 1 implies leaf_le(v@[x], v@[y]) by {
                if y == j && x < j - 1 {
                    assert(leaf_le(v@[x], v@[j - 1]));
                }
            }
        }
        i = i + 1;
    }
}

/// The weights of leaves from `from` on.
pub open spec fn tail_leaves(v: Seq<(u64, usize)>, from: int) -> int
    decreases v.len() - from,
{
    if from < 0 || from >= v.len() {
        0
    } else {
        v[from].0 + tail_leaves(v, from + 1)
    }
}

/// The weights of internal nodes from `from` on.
pub open spec fn tail_nodes(v: Seq<u64>, from: int) -> int
    decreases v.len() - from,
{
    if from < 0 || from >= v.len() {
        0
    } else {
        v[from] + tail_nodes(v, from + 1)
    }
}

proof fn lemma_tail_nodes_push(v: Seq<u64>, from: int, x: u64)
    requires
        0 <= from <= v.len(),
    ensures
        tail_nodes(v.push(x), from) == tail_nodes(v, from) + x,
    decreases v.len() - from,
{
    if from < v.len() {
        lemma_tail_nodes_push(v, from + 1, x);
        assert(v.push(x)[from] == v[from]);
    } else {
        assert(v.push(x)[from] == x);
        assert(tail_nodes(v.push(x), from + 1) == 0);
    }
}

proof fn lemma_tail_leaves_bound(v: Seq<(u64, usize)>, from: int)
    requires
        0 <= from <= v.len(),
        forall|i: int| 0 <= i < v.len() ==> (#[trigger] v[i]).0 < 0x1_0000_0000,
    ensures
        0 <= tail_leaves(v, from) <= (v.len() - from) * 0x1_0000_0000,
    decreases v.len() - from,
{
    if from < v.len() {
        lemma_tail_leaves_bound(v, from + 1);
    }
}

proof fn lemma_tail_nodes_nonneg(v: Seq<u64>, from: int)
    ensures
        0 <= tail_nodes(v, from),
        0 <= from < v.len() ==> v[from] <= tail_nodes(v, from),
    decreases v.len() - from,
{
    if 0 <= from < v.len() {
        lemma_tail_nodes_nonneg(v, from + 1);
    }
}

/// The node ids that `children` lists.
pub open spec fn is_child(children: Seq<(usize, usize)>, k: int, v: int) -> bool {
    children[k].0 == v || children[k].1 == v
}

/// The sum of `f` over `0..n`.
pub open spec fn range_sum(f: spec_fn(int) -> int, n: int) -> int
    decreases n,
{
    if n <= 0 {
        0
    } else {
        range_sum(f, n - 1) + f(n - 1)
    }
}

/// Two functions that agree away from three distinct points sum to totals
/// that differ by what they do at those points.
proof fn lemma_range_sum_frame(f: spec_fn(int) -> int, g: spec_fn(int) -> int, n: int, p: int, a: int, b: int)
    requires
        0 <= n,
        0 <= p,
        0 <= a,
        0 <= b,
        p != a,
        p != b,
        a != b,
        forall|v: int| 0 <= v < n && v != p && v != a && v != b ==> #[trigger] f(v) == g(v),
    ensures
        range_sum(g, n) == range_sum(f, n) + (if p < n {
            g(p) - f(p)
        } else {
            0
        }) + (if a < n {
            g(a) - f(a)
        } else {
            0
        }) + (if b < n {
            g(b) - f(b)
        } else {
            0
        }),
    decreases n,
{
    if n > 0 {
        lemma_range_sum_frame(f, g, n - 1, p, a, b);
    }
}

proof fn lemma_range_sum_zero(n: int)
    ensures
        range_sum(|v: int| 0int, n) == 0,
    decreases n,
{
    if n > 0 {
        lemma_range_sum_zero(n - 1);
    }
}

/// Sums of functions that agree on `0..n` agree.
proof fn lemma_range_sum_ext(f: spec_fn(int) -> int, g: spec_fn(int) -> int, n: int)
    requires
        forall|v: int| 0 <= v < n ==> #[trigger] f(v) == g(v),
    ensures
        range_sum(f, n) == range_sum(g, n),
    decreases n,
{
    if n > 0 {
        lemma_range_sum_ext(f, g, n - 1);
    }
}

/// A function that is zero from `k` on sums to its sum over `0..k`.
proof fn lemma_range_sum_tail_zero(f: spec_fn(int) -> int, n: int, k: int)
    requires
        0 <= k <= n,
        forall|v: int| k <= v < n ==> #[trigger] f(v) == 0,
    ensures
        range_sum(f, n) == range_sum(f, k),
    decreases n - k,
{
    if n > k {
        lemma_range_sum_tail_zero(f, n - 1, k);
    }
}

/// The weight of node `v`: a leaf's count, or an internal node's sum.
pub open spec fn node_weight(leaves: Seq<(u64, usize)>, internal: Seq<u64>, v: int) -> int {
    if v < leaves.len() {
        leaves[v].0 as int
    } else {
        internal[v - leaves.len()] as int
    }
}

/// The other child of the node that has `v` as a child.
pub open spec fn sibling(children: Seq<(usize, usize)>, k: int, v: int) -> int {
    if children[k].0 == v {
        children[k].1 as int
    } else {
        children[k].0 as int
    }
}

/// The Fibonacci numbers.
pub open spec fn fib(n: nat) -> nat
    decreases n,
{
    if n == 0 {
        0
    } else if n == 1 {
        1
    } else {
        fib((n - 1) as nat) + fib((n - 2) as nat)
    }
}

/// A node has been merged into a parent already: leaves below
/// `next_leaf`, internal nodes below `next_internal`.
pub open spec fn picked(v: int, next_leaf: int, next_internal: int, leaf_count: int) -> bool {
    if v < leaf_count {
        v < next_leaf
    } else {
        v - leaf_count < next_internal
    }
}

/// A node's share of the frontier while depths are handed out from the
/// root down: a node whose parent has been handed its depth and which has
/// not yet handed out its own counts `2^(m - depth)`.
pub open spec fn front_term(parent: Seq<int>, depth: Seq<u32>, leaf_count: int, m: int, idx: int, v: int) -> int {
    if parent[v] >= idx && (v < leaf_count || v - leaf_count < idx) {
        pow2((m - depth[v]) as nat) as int
    } else {
        0
    }
}

/// Some internal node has `v` as a child.
pub open spec fn has_parent(children: Seq<(usize, usize)>, v: int) -> bool {
    exists|k: int| 0 <= k < children.len() && #[trigger] is_child(children, k, v)
}

/// Takes the lighter of the next leaf and the next internal node, the leaf
/// on a tie, and returns its weight and node id (leaves first, internal
/// nodes after them in creation order).
fn take_lightest(
    leaves: &Vec<(u64, usize)>,
    internal: &Vec<u64>,
    next_leaf: &mut usize,
    next_internal: &mut usize,
) -> (r: (u64, usize))
    requires
        *old(next_leaf) <= leaves@.len() <= 256,
        *old(next_internal) <= internal@.len() <= 256,
        (leaves@.len() - *old(next_leaf)) + (internal@.len() - *old(next_internal)) >= 1,
    ensures
        (*final(next_leaf) == *old(next_leaf) + 1 && *final(next_internal) == *old(next_internal)
            && *old(next_leaf) < leaves@.len()
            && r.0 == leaves@[*old(next_leaf) as int].0 && r.1 == *old(next_leaf)) || (
        *final(next_internal) == *old(next_internal) + 1 && *final(next_leaf) == *old(next_leaf)
            && *old(next_internal) < internal@.len()
            && r.0 == internal@[*old(next_internal) as int] && r.1 == leaves@.len() + *old(next_internal)),
        tail_leaves(leaves@, *final(next_leaf) as int) + tail_nodes(internal@, *final(next_internal) as int) + r.0
            == tail_leaves(leaves@, *old(next_leaf) as int) + tail_nodes(internal@, *old(next_internal) as int),
        *old(next_leaf) < leaves@.len() ==> r.0 <= leaves@[*old(next_leaf) as int].0,
        *old(next_internal) < internal@.len() ==> r.0 <= internal@[*old(next_internal) as int],
{
    let leaf_count = leaves.len();
    let take_internal = if *next_leaf < leaf_count && *next_internal < internal.len() {
        internal[*next_internal] < leaves[*next_leaf].0
    } else {
        *next_internal < internal.len()
    };
    if take_internal {
        let id = *next_internal;
        *next_internal = *next_internal + 1;
        (internal[id], leaf_count + id)
    } else {
        let id = *next_leaf;
        *next_leaf = *next_leaf + 1;
        (leaves[id].0, id)
    }
}

/// Where the next leaf and the next internal node both weigh at least `w`,
/// so does every node not yet merged, both runs being sorted.
proof fn lemma_front_min(leaves: Seq<(u64, usize)>, internal: Seq<u64>, nl: int, ni: int, w: int)
    requires
        0 <= nl <= leaves.len(),
        0 <= ni <= internal.len(),
        forall|i: int, j: int| 0 <= i < j < leaves.len() ==> #[trigger] leaves[i].0 <= #[trigger] leaves[j].0,
        forall|i: int, j: int| 0 <= i < j < internal.len() ==> #[trigger] internal[i] <= #[trigger] internal[j],
        nl < leaves.len() ==> w <= leaves[nl].0,
        ni < internal.len() ==> w <= internal[ni],
    ensures
        forall|v: int|
            0 <= v < leaves.len() + internal.len() && !picked(v, nl, ni, leaves.len() as int) ==> w
                <= #[trigger] node_weight(leaves, internal, v),
{
    assert forall|v: int|
        0 <= v < leaves.len() + internal.len() && !picked(v, nl, ni, leaves.len() as int) implies w
            <= #[trigger] node_weight(leaves, internal, v) by {
        if v < leaves.len() {
            if v > nl {
                assert(leaves[nl].0 <= leaves[v].0);
            }
        } else {
            let i = v - leaves.len();
            if i > ni {
                assert(internal[ni] <= internal[i]);
            }
        }
    }
}

/// Among the nodes whose parents are at `index` or above, a node whose
/// parent was made no later sits no higher in the tree.
pub open spec fn depth_order(parent: Seq<int>, depth: Seq<u32>, lc: int, m: int, index: int) -> bool {
    forall|x: int, y: int|
        0 <= x < lc + m && 0 <= y < lc + m && x != lc + m - 1 && y != lc + m - 1 && parent[x] >= index
            && parent[y] >= index && #[trigger] parent[x] <= #[trigger] parent[y] ==> depth[x] >= depth[y]
}

/// Every node whose parent is at `index` or above sits one below it.
pub open spec fn depth_links(parent: Seq<int>, depth: Seq<u32>, lc: int, m: int, index: int) -> bool {
    forall|v: int|
        0 <= v < lc + m && v != lc + m - 1 && parent[v] >= index ==> #[trigger] depth[v] == depth[lc
            + parent[v]] + 1
}

/// The parents of the leaves, and of the internal nodes but the root, are
/// made in the nodes' order; and the depths handed out so far keep that
/// order and the links to the parents.
#[verifier::opaque]
pub open spec fn depth_monotone(parent: Seq<int>, depth: Seq<u32>, lc: int, m: int, index: int) -> bool {
    &&& forall|x: int, y: int| 0 <= x < y < lc ==> #[trigger] parent[x] <= #[trigger] parent[y]
    &&& forall|x: int, y: int| lc <= x < y < lc + m - 1 ==> #[trigger] parent[x] <= #[trigger] parent[y]
    &&& depth_order(parent, depth, lc, m, index)
    &&& depth_links(parent, depth, lc, m, index)
}

/// Handing node `k`'s children their depth keeps the order of depths.
proof fn lemma_depth_step(
    parent: Seq<int>,
    children: Seq<(usize, usize)>,
    before: Seq<u32>,
    after: Seq<u32>,
    lc: int,
    m: int,
    k: int,
)
    requires
        1 <= m,
        lc == m + 1,
        0 <= k < m,
        children.len() == m,
        before.len() == lc + m,
        parent.len() >= lc + m,
        forall|v: int| 0 <= v < lc + m && v != lc + m - 1 ==> 0 <= #[trigger] parent[v] < m && is_child(children, parent[v], v),
        forall|j: int| 0 <= j < m ==> parent[(#[trigger] children[j]).0 as int] == j && parent[children[j].1 as int] == j,
        forall|j: int| 0 <= j < m ==> (#[trigger] children[j]).0 < lc + j && children[j].1 < lc + j,
        before[lc + m - 1] == 0,
        after == before.update(children[k].0 as int, (before[lc + k] + 1) as u32).update(
            children[k].1 as int,
            (before[lc + k] + 1) as u32,
        ),
        before[lc + k] + 1 <= u32::MAX,
        depth_monotone(parent, before, lc, m, k + 1),
    ensures
        depth_monotone(parent, after, lc, m, k),
{
    reveal(depth_monotone);
    let left = children[k].0 as int;
    let right = children[k].1 as int;
    let root = lc + m - 1;
    assert(parent[left] == k && parent[right] == k);
    assert(after[lc + k] == before[lc + k]);
    assert forall|v: int|
        0 <= v < lc + m && v != root && parent[v] >= k implies #[trigger] after[v] == after[lc
        + parent[v]] + 1 by {
        let p = parent[v];
        assert(is_child(children, p, v));
        assert(lc + p != left && lc + p != right);
        if p != k {
            assert(v != left && v != right);
        }
    }
    assert forall|x: int, y: int|
        0 <= x < lc + m && 0 <= y < lc + m && x != root && y != root && parent[x] >= k && parent[y] >= k
            && #[trigger] parent[x] <= #[trigger] parent[y] implies after[x] >= after[y] by {
        assert(depth_order(parent, before, lc, m, k + 1));
        let px = parent[x];
        let py = parent[y];
        if px > k {
            assert(x != left && x != right && y != left && y != right);
        } else if py > k {
            assert(y != left && y != right);
            assert(after[x] == before[lc + k] + 1);
            assert(after[y] == before[y]);
            assert(before[y] == before[lc + py] + 1);
            if lc + py != root {
                assert(is_child(children, parent[lc + k], lc + k));
                assert(is_child(children, parent[lc + py], lc + py));
                assert(parent[lc + k] > k);
                assert(parent[lc + py] > py);
                assert(parent[lc + k] <= parent[lc + py]);
                assert(before[lc + k] >= before[lc + py]);
            }
        }
    }
}

/// Merges the leaves into a tree and returns the pairs of children of each
/// internal node, in creation order, and every node's depth.
#[verifier::rlimit(100)]
fn merge_depths(leaves: &Vec<(u64, usize)>) -> (r: (Vec<(usize, usize)>, Vec<u32>))
    requires
        2 <= leaves@.len() <= 256,
        forall|i: int| 0 <= i < leaves@.len() ==> 1 <= (#[trigger] leaves@[i]).0 < 0x1_0000_0000,
        forall|i: int, j: int| 0 <= i < j < leaves@.len() ==> #[trigger] leaves@[i].0 <= #[trigger] leaves@[j].0,
    ensures
        r.1@.len() >= leaves@.len(),
        forall|v: int| 0 <= v < leaves@.len() ==> fib((r.1@[v] + 2) as nat) <= tail_leaves(leaves@, 0),
        forall|v: int| 0 <= v < leaves@.len() ==> 1 <= #[trigger] r.1@[v] <= leaves@.len() - 1,
        range_sum(
            |v: int| pow2((leaves@.len() - 1 - r.1@[v]) as nat) as int,
            leaves@.len() as int,
        ) == pow2((leaves@.len() - 1) as nat),
        forall|v: int, w: int| 0 <= v < w < leaves@.len() ==> #[trigger] r.1@[v] >= #[trigger] r.1@[w],
{
    let leaf_count = leaves.len();
    let ghost mut parent: Seq<int> = Seq::new((2 * leaves@.len()) as nat, |v: int| -1int);
    let ghost mut lp: int = 0;
    let mut internal_freq: Vec<u64> = Vec::new();
    let mut children: Vec<(usize, usize)> = Vec::new();
    let mut next_leaf: usize = 0;
    let mut next_internal: usize = 0;
    let ghost total = tail_leaves(leaves@, 0);
    proof {
        lemma_tail_leaves_bound(leaves@, 0);
    }
    while (leaf_count - next_leaf) + (internal_freq.len() - next_internal) > 1
        invariant
            leaf_count == leaves@.len(),
            2 <= leaf_count <= 256,
            forall|i: int| 0 <= i < leaves@.len() ==> (#[trigger] leaves@[i]).0 < 0x1_0000_0000,
            next_leaf <= leaf_count,
            next_internal <= internal_freq@.len(),
            internal_freq@.len() == children@.len(),
            next_leaf + next_internal == 2 * internal_freq@.len(),
            internal_freq@.len() < leaf_count,
            internal_freq@.len() >= 1 ==> next_internal < internal_freq@.len(),
            total <= 256 * 0x1_0000_0000,
            tail_leaves(leaves@, next_leaf as int) + tail_nodes(internal_freq@, next_internal as int) == total,
            forall|k: int|
                0 <= k < children@.len() ==> (#[trigger] children@[k]).0 < leaf_count + k
                    && children@[k].1 < leaf_count + k,
            forall|l: int| 0 <= l < next_leaf ==> #[trigger] has_parent(children@, l),
            parent.len() == 2 * leaf_count,
            forall|v: int| 0 <= v < leaf_count + internal_freq@.len() ==> (picked(v, next_leaf as int, next_internal as int, leaf_count as int) <==> #[trigger] parent[v] >= 0),
            forall|v: int| leaf_count + internal_freq@.len() <= v < 2 * leaf_count ==> #[trigger] parent[v] < 0,
            forall|v: int| 0 <= v < 2 * leaf_count && #[trigger] parent[v] >= 0 ==> parent[v] < children@.len() && is_child(children@, parent[v], v),
            forall|k: int| 0 <= k < children@.len() ==> parent[(#[trigger] children@[k]).0 as int] == k && parent[children@[k].1 as int] == k && children@[k].0 != children@[k].1,
            forall|i: int, j: int| 0 <= i < j < leaves@.len() ==> #[trigger] leaves@[i].0 <= #[trigger] leaves@[j].0,
            forall|i: int| 0 <= i < leaves@.len() ==> 1 <= (#[trigger] leaves@[i]).0,
            0 <= lp,
            forall|v: int| 0 <= v < leaf_count + internal_freq@.len() && picked(v, next_leaf as int, next_internal as int, leaf_count as int) ==> #[trigger] node_weight(leaves@, internal_freq@, v) <= lp,
            forall|v: int| 0 <= v < leaf_count + internal_freq@.len() && !picked(v, next_leaf as int, next_internal as int, leaf_count as int) ==> lp <= #[trigger] node_weight(leaves@, internal_freq@, v),
            forall|i: int, j: int| 0 <= i < j < internal_freq@.len() ==> #[trigger] internal_freq@[i] <= #[trigger] internal_freq@[j],
            internal_freq@.len() >= 1 ==> internal_freq@[internal_freq@.len() - 1] <= 2 * lp,
            forall|x: int, y: int| 0 <= x < leaf_count + internal_freq@.len() && 0 <= y < leaf_count + internal_freq@.len() && 0 <= #[trigger] parent[x] < #[trigger] parent[y] ==> node_weight(leaves@, internal_freq@, x) <= node_weight(leaves@, internal_freq@, y),
            forall|k: int| 0 <= k < internal_freq@.len() ==> #[trigger] internal_freq@[k] == node_weight(leaves@, internal_freq@, children@[k].0 as int) + node_weight(leaves@, internal_freq@, children@[k].1 as int),
            forall|v: int| 0 <= v < leaf_count + internal_freq@.len() ==> 1 <= #[trigger] node_weight(leaves@, internal_freq@, v),
            forall|x: int, y: int| 0 <= x < y < next_leaf ==> #[trigger] parent[x] <= #[trigger] parent[y],
            forall|x: int, y: int|
                leaf_count <= x < y < leaf_count + next_internal ==> #[trigger] parent[x] <= #[trigger] parent[y],
        decreases leaf_count - internal_freq@.len(),
    {
        let ghost nl0 = next_leaf;
        let ghost if0 = internal_freq@;
        let ghost lp0 = lp;
        let ghost ni0 = next_internal;
        let ghost ch0 = children@;
        let ghost len0 = internal_freq@.len() as int;
        let p0 = take_lightest(leaves, &internal_freq, &mut next_leaf, &mut next_internal);
        let ghost nl1 = next_leaf;
        let ghost ni1 = next_internal;
        proof {
            lemma_front_min(leaves@, internal_freq@, nl0 as int, ni0 as int, p0.0 as int);
            assert(node_weight(leaves@, internal_freq@, p0.1 as int) == p0.0);
        }
        let p1 = take_lightest(leaves, &internal_freq, &mut next_leaf, &mut next_internal);
        proof {
            lemma_front_min(leaves@, internal_freq@, nl1 as int, ni1 as int, p1.0 as int);
            assert(node_weight(leaves@, internal_freq@, p1.1 as int) == p1.0);
            assert(!picked(p1.1 as int, nl1 as int, ni1 as int, leaf_count as int));
            assert(p0.0 <= p1.0);
            assert(lp0 <= p0.0);
        }
        proof {
            lemma_tail_leaves_bound(leaves@, next_leaf as int);
            lemma_tail_nodes_nonneg(internal_freq@, next_internal as int);
            lemma_tail_nodes_push(internal_freq@, next_internal as int, (p0.0 + p1.0) as u64);
        }
        let ghost k = children@.len() as int;
        internal_freq.push(p0.0 + p1.0);
        children.push((p0.1, p1.1));
        proof {
            let old_parent = parent;
            assert(p0.1 != p1.1);
            assert(p0.1 < leaf_count + len0 && p1.1 < leaf_count + len0);
            assert(!picked(p0.1 as int, nl0 as int, ni0 as int, leaf_count as int));
            assert(old_parent[p0.1 as int] < 0);
            parent = parent.update(p0.1 as int, k).update(p1.1 as int, k);
            assert forall|v: int| 0 <= v < 2 * leaf_count && #[trigger] parent[v] >= 0 implies parent[v] < children@.len() && is_child(children@, parent[v], v) by {
                if v != p0.1 && v != p1.1 {
                    assert(parent[v] == old_parent[v]);
                    assert(children@[parent[v]] == ch0[parent[v]]);
                }
            }
            assert forall|j: int| 0 <= j < children@.len() implies parent[(#[trigger] children@[j]).0 as int] == j && parent[children@[j].1 as int] == j && children@[j].0 != children@[j].1 by {
                if j < k {
                    assert(children@[j] == ch0[j]);
                    assert(old_parent[ch0[j].0 as int] == j);
                    assert(old_parent[ch0[j].1 as int] == j);
                }
            }
            assert forall|v: int| 0 <= v < leaf_count + internal_freq@.len() implies (picked(v, next_leaf as int, next_internal as int, leaf_count as int) <==> #[trigger] parent[v] >= 0) by {
                if v != p0.1 && v != p1.1 {
                    assert(parent[v] == old_parent[v]);
                }
            }
            assert(is_child(children@, k, p0.1 as int) && is_child(children@, k, p1.1 as int));
            assert forall|v: int| 0 <= v < leaf_count + len0 implies #[trigger] node_weight(leaves@, internal_freq@, v) == node_weight(leaves@, if0, v) by {
                if v >= leaf_count {
                    assert(internal_freq@[v - leaf_count] == if0[v - leaf_count]);
                }
            }
            assert(node_weight(leaves@, internal_freq@, leaf_count + len0) == p0.0 + p1.0);
            lp = p1.0 as int;
            assert forall|v: int| 0 <= v < leaf_count + internal_freq@.len() && picked(v, next_leaf as int, next_internal as int, leaf_count as int) implies #[trigger] node_weight(leaves@, internal_freq@, v) <= lp by {
                if v != p0.1 && v != p1.1 {
                    assert(picked(v, nl0 as int, ni0 as int, leaf_count as int));
                    assert(node_weight(leaves@, if0, v) <= lp0);
                }
            }
            assert forall|v: int| 0 <= v < leaf_count + internal_freq@.len() && !picked(v, next_leaf as int, next_internal as int, leaf_count as int) implies lp <= #[trigger] node_weight(leaves@, internal_freq@, v) by {
                if v < leaf_count + len0 {
                    assert(!picked(v, nl1 as int, ni1 as int, leaf_count as int));
                    assert(p1.0 <= node_weight(leaves@, if0, v));
                }
            }
            assert forall|i: int, j: int| 0 <= i < j < internal_freq@.len() implies #[trigger] internal_freq@[i] <= #[trigger] internal_freq@[j] by {
                if j == len0 {
                    if i < len0 - 1 {
                        assert(if0[i] <= if0[len0 - 1]);
                    }
                }
            }
            assert forall|x: int, y: int| 0 <= x < leaf_count + internal_freq@.len() && 0 <= y < leaf_count + internal_freq@.len() && 0 <= #[trigger] parent[x] < #[trigger] parent[y] implies node_weight(leaves@, internal_freq@, x) <= node_weight(leaves@, internal_freq@, y) by {
                if parent[y] == k {
                    assert(x != p0.1 && x != p1.1);
                    assert(parent[x] == old_parent[x]);
                    assert(picked(x, nl0 as int, ni0 as int, leaf_count as int));
                    assert(node_weight(leaves@, if0, x) <= lp0);
                    assert(y == p0.1 || y == p1.1) by {
                        assert(is_child(children@, parent[y], y));
                    }
                } else {
                    assert(x != p0.1 && x != p1.1 && y != p0.1 && y != p1.1);
                    assert(parent[x] == old_parent[x] && parent[y] == old_parent[y]);
                }
            }
            assert forall|j: int| 0 <= j < internal_freq@.len() implies #[trigger] internal_freq@[j] == node_weight(leaves@, internal_freq@, children@[j].0 as int) + node_weight(leaves@, internal_freq@, children@[j].1 as int) by {
                if j < len0 {
                    assert(children@[j] == ch0[j]);
                    assert(internal_freq@[j] == if0[j]);
                }
            }
            assert forall|x: int, y: int| 0 <= x < y < next_leaf implies #[trigger] parent[x] <= #[trigger] parent[y] by {
                if y >= nl0 {
                    assert(y == p0.1 || y == p1.1);
                    if x < nl0 {
                        assert(old_parent[x] >= 0);
                        assert(parent[x] == old_parent[x]);
                    }
                } else {
                    assert(parent[x] == old_parent[x] && parent[y] == old_parent[y]);
                }
            }
            assert forall|x: int, y: int|
                leaf_count <= x < y < leaf_count + next_internal implies #[trigger] parent[x] <= #[trigger] parent[y] by {
                if y >= leaf_count + ni0 {
                    assert(y == p0.1 || y == p1.1);
                    if x < leaf_count + ni0 {
                        assert(picked(x, nl0 as int, ni0 as int, leaf_count as int));
                        assert(old_parent[x] >= 0);
                        assert(parent[x] == old_parent[x]);
                    }
                } else {
                    assert(parent[x] == old_parent[x] && parent[y] == old_parent[y]);
                }
            }
            assert forall|l: int| 0 <= l < next_leaf implies #[trigger] has_parent(children@, l) by {
                if l < nl0 {
                    assert(has_parent(ch0, l));
                    let j = choose|j: int| 0 <= j < ch0.len() && #[trigger] is_child(ch0, j, l);
                    assert(children@[j] == ch0[j]);
                    assert(is_child(children@, j, l));
                } else {
                    assert(is_child(children@, k, l));
                }
            }
        }
    }
    let m = children.len();
    let ghost root = (leaf_count + m - 1) as int;
    proof {
        assert(next_leaf == leaf_count);
        assert forall|v: int| 0 <= v < leaf_count + m && v != root implies #[trigger] parent[v] >= 0 by {
            assert(picked(v, next_leaf as int, next_internal as int, leaf_count as int));
        }
        assert(parent[root] < 0) by {
            assert(!picked(root, next_leaf as int, next_internal as int, leaf_count as int));
        }
        assert(tail_leaves(leaves@, leaf_count as int) == 0);
        assert(tail_nodes(internal_freq@, (m - 1) as int) == internal_freq@[m - 1] + tail_nodes(internal_freq@, m as int));
        assert(total == node_weight(leaves@, internal_freq@, root));
        parent = parent.update(root, m as int);
    }
    let mut depth: Vec<u32> = vec![0u32; leaf_count + m];
    let mut index: usize = m;
    proof {
        reveal(depth_monotone);
        assert(next_internal == m - 1);
        assert forall|x: int, y: int|
            leaf_count <= x < y < leaf_count + m - 1 implies #[trigger] parent[x] <= #[trigger] parent[y] by {
            assert(x < leaf_count + next_internal && y < leaf_count + next_internal);
        }
        assert(depth_monotone(parent, depth@, leaf_count as int, m as int, m as int));
    }
    proof {
        lemma2_to64();
        let zero = |v: int| 0int;
        let f0 = |v: int| front_term(parent, depth@, leaf_count as int, m as int, m as int, v);
        let n = (leaf_count + m) as int;
        assert forall|v: int| 0 <= v < n && v != root && v != n && v != n + 1 implies #[trigger] zero(v) == f0(v) by {
            assert(parent[v] < m);
        }
        lemma_range_sum_frame(zero, f0, n, root, n, n + 1);
        assert(range_sum(zero, (leaf_count + m) as int) == 0) by {
            lemma_range_sum_zero((leaf_count + m) as int);
        }
    }
    while index > 0
        invariant
            m == children@.len() == leaf_count - 1,
            leaf_count == leaves@.len() <= 256,
            depth@.len() == leaf_count + m,
            index <= m,
            root == leaf_count + m - 1,
            parent.len() == 2 * leaf_count,
            parent[root] == m,
            forall|v: int| 0 <= v < leaf_count + m && v != root ==> 0 <= #[trigger] parent[v] < m && is_child(children@, parent[v], v),
            forall|k: int| 0 <= k < m ==> parent[(#[trigger] children@[k]).0 as int] == k && parent[children@[k].1 as int] == k && children@[k].0 != children@[k].1,
            range_sum(|v: int| front_term(parent, depth@, leaf_count as int, m as int, index as int, v), (leaf_count + m) as int) == pow2(m as nat),
            internal_freq@.len() == m,
            total == node_weight(leaves@, internal_freq@, root),
            depth@[root] == 0,
            forall|x: int, y: int| 0 <= x < leaf_count + m && 0 <= y < leaf_count + m && x != root && y != root && #[trigger] parent[x] < #[trigger] parent[y] ==> node_weight(leaves@, internal_freq@, x) <= node_weight(leaves@, internal_freq@, y),
            forall|k: int| 0 <= k < m ==> #[trigger] internal_freq@[k] == node_weight(leaves@, internal_freq@, children@[k].0 as int) + node_weight(leaves@, internal_freq@, children@[k].1 as int),
            forall|v: int| 0 <= v < leaf_count + m ==> 1 <= #[trigger] node_weight(leaves@, internal_freq@, v),
            forall|v: int| 0 <= v < leaf_count + m && v != root && parent[v] >= index ==> total >= fib((#[trigger] depth@[v] + 1) as nat) * node_weight(leaves@, internal_freq@, v) + fib(depth@[v] as nat) * node_weight(leaves@, internal_freq@, sibling(children@, parent[v], v)),
            forall|k: int|
                0 <= k < m ==> (#[trigger] children@[k]).0 < leaf_count + k && children@[k].1 < leaf_count + k,
            forall|v: int| 0 <= v < leaf_count ==> #[trigger] depth@[v] <= m,
            forall|k: int| 0 <= k < m ==> #[trigger] depth@[leaf_count + k] <= m - 1 - k,
            forall|l: int| 0 <= l < leaf_count ==> #[trigger] has_parent(children@, l),
            forall|l: int, k: int| 0 <= l < leaf_count && index <= k < m && #[trigger] is_child(children@, k, l) ==> depth@[l] >= 1,
            depth_monotone(parent, depth@, leaf_count as int, m as int, index as int),
        decreases index,
    {
        index = index - 1;
        let (left, right) = children[index];
        let up = depth[leaf_count + index] + 1;
        let ghost before = depth@;
        depth.set(left, up);
        depth.set(right, up);
        proof {
            lemma_depth_step(parent, children@, before, depth@, leaf_count as int, m as int, index as int);
        }
        proof {
            let k = index as int;
            let p = leaf_count + k;
            let f = |v: int| front_term(parent, before, leaf_count as int, m as int, k + 1, v);
            let g = |v: int| front_term(parent, depth@, leaf_count as int, m as int, k, v);
            assert(left < leaf_count + k && right < leaf_count + k);
            assert forall|v: int| 0 <= v < leaf_count + m && v != p && v != left && v != right implies #[trigger] f(v) == g(v) by {
                assert(depth@[v] == before[v]);
                if v != root {
                    if parent[v] == k {
                        assert(is_child(children@, k, v));
                    }
                }
            }
            if p != root {
                assert(is_child(children@, parent[p], p));
                assert(parent[p] > k);
            }
            lemma_range_sum_frame(f, g, (leaf_count + m) as int, p, left as int, right as int);
            assert(f(p) == pow2((m - before[p]) as nat) as int);
            assert(g(p) == 0);
            assert(f(left as int) == 0 && f(right as int) == 0);
            vstd::arithmetic::power2::lemma_pow2_unfold((m - before[p]) as nat);
            assert(g(left as int) == pow2((m - before[p] - 1) as nat) as int);
            assert(g(right as int) == pow2((m - before[p] - 1) as nat) as int);
            let d = before[p];
            let wa = node_weight(leaves@, internal_freq@, left as int);
            let wb = node_weight(leaves@, internal_freq@, right as int);
            assert(node_weight(leaves@, internal_freq@, p) == wa + wb);
            assert(fib((d + 2) as nat) == fib((d + 1) as nat) + fib(d as nat));
            assert(sibling(children@, k, left as int) == right);
            assert(sibling(children@, k, right as int) == left);
            if p == root {
                assert(d == 0);
                reveal_with_fuel(fib, 3);
                assert(total >= fib((d + 2) as nat) * wa + fib((d + 1) as nat) * wb);
                assert(total >= fib((d + 2) as nat) * wb + fib((d + 1) as nat) * wa);
            } else {
                let kp = parent[p];
                let q = sibling(children@, kp, p);
                assert(is_child(children@, kp, p));
                assert(parent[q] == kp);
                assert(q != root);
                assert(wa <= node_weight(leaves@, internal_freq@, q));
                assert(wb <= node_weight(leaves@, internal_freq@, q));
                let wq = node_weight(leaves@, internal_freq@, q);
                assert(total >= fib((d + 1) as nat) * (wa + wb) + fib(d as nat) * wq);
                assert(total >= fib((d + 2) as nat) * wa + fib((d + 1) as nat) * wb) by (nonlinear_arith)
                    requires
                        total >= fib((d + 1) as nat) * (wa + wb) + fib(d as nat) * wq,
                        wa <= wq,
                        fib((d + 2) as nat) == fib((d + 1) as nat) + fib(d as nat),
                ;
                assert(total >= fib((d + 2) as nat) * wb + fib((d + 1) as nat) * wa) by (nonlinear_arith)
                    requires
                        total >= fib((d + 1) as nat) * (wa + wb) + fib(d as nat) * wq,
                        wb <= wq,
                        fib((d + 2) as nat) == fib((d + 1) as nat) + fib(d as nat),
                ;
            }
            assert forall|v: int| 0 <= v < leaf_count + m && v != root && parent[v] >= k implies total >= fib((#[trigger] depth@[v] + 1) as nat) * node_weight(leaves@, internal_freq@, v) + fib(depth@[v] as nat) * node_weight(leaves@, internal_freq@, sibling(children@, parent[v], v)) by {
                if v != left && v != right {
                    assert(depth@[v] == before[v]);
                    if parent[v] == k {
                        assert(is_child(children@, k, v));
                    }
                    assert(parent[v] >= k + 1);
                }
            }
            assert forall|l: int, k: int| 0 <= l < leaf_count && index <= k < m && #[trigger] is_child(children@, k, l) implies depth@[l] >= 1 by {
                if l != left && l != right {
                    assert(depth@[l] == before[l]);
                }
            }
            assert forall|j: int| 0 <= j < m implies #[trigger] depth@[leaf_count + j] <= m - 1 - j by {
                if leaf_count + j != left && leaf_count + j != right {
                    assert(depth@[leaf_count + j] == before[leaf_count + j]);
                }
            }
        }
    }
    proof {
        assert forall|v: int| 0 <= v < leaf_count implies 1 <= #[trigger] depth@[v] <= leaf_count - 1 by {
            assert(has_parent(children@, v));
            let k = choose|k: int| 0 <= k < m && #[trigger] is_child(children@, k, v);
        }
        let f = |v: int| front_term(parent, depth@, leaf_count as int, m as int, 0, v);
        let g = |v: int| pow2((leaves@.len() - 1 - depth@[v]) as nat) as int;
        assert forall|v: int| leaf_count <= v < leaf_count + m implies #[trigger] f(v) == 0 by {}
        lemma_range_sum_tail_zero(f, (leaf_count + m) as int, leaf_count as int);
        assert forall|v: int| 0 <= v < leaf_count implies #[trigger] f(v) == g(v) by {
            assert(v != root);
        }
        lemma_range_sum_ext(f, g, leaf_count as int);
        assert forall|v: int| 0 <= v < leaves@.len() implies fib((depth@[v] + 2) as nat) <= tail_leaves(leaves@, 0) by {
            assert(v != root);
            let d = depth@[v];
            let wv = node_weight(leaves@, internal_freq@, v);
            let ws = node_weight(leaves@, internal_freq@, sibling(children@, parent[v], v));
            assert(sibling(children@, parent[v], v) < leaf_count + m) by {
                assert(is_child(children@, parent[v], v));
            }
            assert(fib((d + 2) as nat) == fib((d + 1) as nat) + fib(d as nat));
            assert(fib((d + 1) as nat) * wv + fib(d as nat) * ws >= fib((d + 1) as nat) + fib(d as nat)) by (nonlinear_arith)
                requires
                    wv >= 1,
                    ws >= 1,
            ;
        }
        reveal(depth_monotone);
        assert forall|v: int, w: int| 0 <= v < w < leaves@.len() implies #[trigger] depth@[v] >= #[trigger] depth@[w] by {
            assert(parent[v] <= parent[w]);
            assert(depth_order(parent, depth@, leaf_count as int, m as int, 0));
        }
    }
    (children, depth)
}

/// The largest of the first `k` counts.
pub open spec fn max_freq(freqs: Seq<u32>, k: int) -> nat
    decreases k,
{
    if k <= 0 {
        0
    } else if freqs[k - 1] > max_freq(freqs, k - 1) {
        freqs[k - 1] as nat
    } else {
        max_freq(freqs, k - 1)
    }
}

proof fn lemma_max_freq(freqs: Seq<u32>, k: int)
    requires
        0 <= k <= freqs.len(),
    ensures
        forall|t: int| 0 <= t < k ==> #[trigger] freqs[t] <= max_freq(freqs, k),
    decreases k,
{
    if k > 0 {
        lemma_max_freq(freqs, k - 1);
    }
}

proof fn lemma_tail_leaves_max(v: Seq<(u64, usize)>, from: int, cap: int)
    requires
        0 <= from <= v.len(),
        forall|i: int| 0 <= i < v.len() ==> (#[trigger] v[i]).0 <= cap,
    ensures
        tail_leaves(v, from) <= (v.len() - from) * cap,
    decreases v.len() - from,
{
    if from < v.len() {
        lemma_tail_leaves_max(v, from + 1, cap);
        assert(v[from].0 <= cap);
        assert((v.len() - from) * cap == cap + (v.len() - (from + 1)) * cap) by (nonlinear_arith);
    } else {
        assert((v.len() - from) * cap == 0) by (nonlinear_arith)
            requires
                from == v.len(),
        ;
    }
}

/// `2^(top - length)` summed over the symbols that have codes: it is
/// `2^top` exactly when the lengths describe a complete prefix code
/// (Kraft's equality), which is what lets a decoder deduce the last weight.
pub open spec fn kraft_sum(lengths: Seq<u8>, top: nat) -> int {
    range_sum(
        |t: int|
            if lengths[t] > 0 {
                pow2((top - lengths[t]) as nat) as int
            } else {
                0
            },
        lengths.len() as int,
    )
}

/// Plain Huffman code lengths, built by merging the two lightest nodes.
///
/// Leaves are sorted by weight and every internal node is at least as
/// heavy as the one before it, so the two lightest nodes are always at the
/// front of one of the two runs and no priority queue is needed. Every
/// symbol that occurs gets a code (a lone one gets one bit) and none is
/// longer than the number of merges.
pub fn huffman(freqs: &Vec<u32>) -> (lengths: Vec<u8>)
    requires
        freqs@.len() == 256,
    ensures
        lengths@.len() == 256,
        forall|s: int| 0 <= s < 256 && freqs@[s] == 0 ==> #[trigger] lengths@[s] == 0,
        forall|s: int|
            0 <= s < 256 && freqs@[s] > 0 ==> 1 <= #[trigger] lengths@[s] && (lengths@[s] as int)
                <= if occurring(freqs@, 256) >= 2 {
                occurring(freqs@, 256) - 1
            } else {
                1
            },
        occurring(freqs@, 256) >= 2 ==> kraft_sum(lengths@, (occurring(freqs@, 256) - 1) as nat)
            == pow2((occurring(freqs@, 256) - 1) as nat),
        forall|s: int|
            0 <= s < 256 && freqs@[s] > 0 && occurring(freqs@, 256) >= 2 ==> fib(
                (#[trigger] lengths@[s] + 2) as nat,
            ) <= occurring(freqs@, 256) * max_freq(freqs@, 256),
        forall|a: int, b: int|
            0 <= a < 256 && 0 <= b < 256 && freqs@[a] > freqs@[b] && freqs@[b] > 0 ==> #[trigger] lengths@[a]
                <= #[trigger] lengths@[b],
{
    let ghost f = freqs@;
    let mut leaves: Vec<(u64, usize)> = Vec::new();
    let mut s: usize = 0;
    while s < 256
        invariant
            f == freqs@,
            f.len() == 256,
            s <= 256,
            leaves@.len() == occurring(f, s as int),
            forall|i: int|
                0 <= i < leaves@.len() ==> (#[trigger] leaves@[i]).1 < s && f[leaves@[i].1 as int] > 0
                    && leaves@[i].0 == f[leaves@[i].1 as int],
            forall|t: int| 0 <= t < s && f[t] > 0 ==> exists|i: int| 0 <= i < leaves@.len() && #[trigger] leaves@[i].1 == t,
            forall|i: int, j: int| 0 <= i < j < leaves@.len() ==> #[trigger] leaves@[i].1 < #[trigger] leaves@[j].1,
        decreases 256 - s,
    {
        if freqs[s] > 0 {
            let ghost before = leaves@;
            leaves.push((freqs[s] as u64, s));
            proof {
                assert forall|t: int| 0 <= t < s + 1 && f[t] > 0 implies exists|i: int|
                    0 <= i < leaves@.len() && #[trigger] leaves@[i].1 == t by {
                    if t == s {
                        assert(leaves@[before.len() as int].1 == t);
                    } else {
                        let i = choose|i: int| 0 <= i < before.len() && #[trigger] before[i].1 == t;
                        assert(leaves@[i].1 == t);
                    }
                }
            }
        }
        s = s + 1;
    }
    sort_leaves(&mut leaves, Ghost(f));
    proof {
        lemma_occurring_bound(f, 256);
    }
    let leaf_count = leaves.len();
    let mut lengths: Vec<u8> = vec![0u8; 256];
    if leaf_count < 2 {
        if leaf_count == 1 {
            let symbol = leaves[0].1;
            lengths.set(symbol, 1);
            proof {
                assert forall|a: int, b: int|
                    0 <= a < 256 && 0 <= b < 256 && f[a] > f[b] && f[b] > 0 implies #[trigger] lengths@[a]
                    <= #[trigger] lengths@[b] by {
                    let ia = choose|k: int| 0 <= k < leaves@.len() && #[trigger] leaves@[k].1 == a;
                    let ib = choose|k: int| 0 <= k < leaves@.len() && #[trigger] leaves@[k].1 == b;
                }
                assert forall|t: int| 0 <= t < 256 && f[t] > 0 implies #[trigger] lengths@[t] == 1 by {
                    let i = choose|i: int| 0 <= i < leaves@.len() && #[trigger] leaves@[i].1 == t;
                }
            }
        } else {
            proof {
                assert forall|t: int| 0 <= t < 256 implies f[t] == 0 by {
                    if f[t] > 0 {
                        let i = choose|i: int| 0 <= i < leaves@.len() && #[trigger] leaves@[i].1 == t;
                    }
                }
            }
        }
        return lengths;
    }
    proof {
        assert forall|a: int, b: int| 0 <= a < b < leaves@.len() implies #[trigger] leaves@[a].0 <= #[trigger] leaves@[b].0 by {
            assert(leaf_le(leaves@[a], leaves@[b]));
        }
    }
    let (_children, depth) = merge_depths(&leaves);
    let mut i: usize = 0;
    proof {
        lemma_range_sum_ext(
            |t: int| if lengths@[t] > 0 { pow2((leaf_count - 1 - lengths@[t]) as nat) as int } else { 0 },
            |t: int| 0int,
            256,
        );
        lemma_range_sum_zero(256);
    }
    while i < leaf_count
        invariant
            f == freqs@,
            f.len() == 256,
            leaf_count == leaves@.len() == occurring(f, 256) >= 2,
            leaf_count <= 256,
            leaves_of(leaves@, f),
            depth@.len() >= leaf_count,
            forall|v: int| 0 <= v < leaf_count ==> 1 <= #[trigger] depth@[v] <= leaf_count - 1,
            i <= leaf_count,
            lengths@.len() == 256,
            forall|t: int| 0 <= t < 256 ==> #[trigger] lengths@[t] == 0 || (f[t] > 0 && 1 <= lengths@[t] <= leaf_count - 1),
            forall|k: int| 0 <= k < i ==> #[trigger] lengths@[leaves@[k].1 as int] >= 1,
            forall|t: int| 0 <= t < 256 && #[trigger] lengths@[t] != 0 ==> exists|k: int| 0 <= k < i && leaves@[k].1 == t,
            forall|v: int| 0 <= v < leaf_count ==> fib((#[trigger] depth@[v] + 2) as nat) <= tail_leaves(leaves@, 0),
            forall|k: int| 0 <= k < i ==> #[trigger] lengths@[leaves@[k].1 as int] == depth@[k],
            range_sum(|t: int| if lengths@[t] > 0 { pow2((leaf_count - 1 - lengths@[t]) as nat) as int } else { 0 }, 256)
                == range_sum(|v: int| pow2((leaves@.len() - 1 - depth@[v]) as nat) as int, i as int),
        decreases leaf_count - i,
    {
        let symbol = leaves[i].1;
        let ghost before = lengths@;
        proof {
            if before[symbol as int] != 0 {
                let k = choose|k: int| 0 <= k < i && leaves@[k].1 == symbol;
                assert(leaves@[k].1 != leaves@[i as int].1);
            }
        }
        lengths.set(symbol, depth[i] as u8);
        proof {
            let fk = |t: int| if before[t] > 0 { pow2((leaf_count - 1 - before[t]) as nat) as int } else { 0 };
            let gk = |t: int| if lengths@[t] > 0 { pow2((leaf_count - 1 - lengths@[t]) as nat) as int } else { 0 };
            assert forall|t: int| 0 <= t < 256 && t != symbol && t != 256 && t != 257 implies #[trigger] fk(t) == gk(t) by {
                assert(lengths@[t] == before[t]);
            }
            lemma_range_sum_frame(fk, gk, 256, symbol as int, 256, 257);
            assert forall|k: int| 0 <= k < i + 1 implies #[trigger] lengths@[leaves@[k].1 as int] == depth@[k] by {
                if k < i {
                    assert(leaves@[k].1 != leaves@[i as int].1);
                    assert(lengths@[leaves@[k].1 as int] == before[leaves@[k].1 as int]);
                }
            }
            assert forall|t: int| 0 <= t < 256 && #[trigger] lengths@[t] != 0 implies exists|k: int| 0 <= k < i + 1 && leaves@[k].1 == t by {
                if t != symbol {
                    assert(lengths@[t] == before[t]);
                    let k = choose|k: int| 0 <= k < i && leaves@[k].1 == t;
                    assert(0 <= k < i + 1 && leaves@[k].1 == t);
                } else {
                    assert(leaves@[i as int].1 == t);
                }
            }
            assert forall|k: int| 0 <= k < i + 1 implies #[trigger] lengths@[leaves@[k].1 as int] >= 1 by {
                if leaves@[k].1 != symbol {
                    assert(lengths@[leaves@[k].1 as int] == before[leaves@[k].1 as int]);
                }
            }
        }
        i = i + 1;
    }
    proof {
        assert forall|t: int| 0 <= t < 256 && f[t] > 0 implies 1 <= #[trigger] lengths@[t] by {
            let k = choose|k: int| 0 <= k < leaves@.len() && #[trigger] leaves@[k].1 == t;
            assert(lengths@[leaves@[k].1 as int] >= 1);
        }
        lemma_max_freq(f, 256);
        assert forall|i: int| 0 <= i < leaves@.len() implies (#[trigger] leaves@[i]).0 <= max_freq(f, 256) by {
            assert(leaves@[i].0 == f[leaves@[i].1 as int]);
        }
        lemma_tail_leaves_max(leaves@, 0, max_freq(f, 256) as int);
        assert forall|t: int| 0 <= t < 256 && f[t] > 0 && occurring(f, 256) >= 2 implies fib(
            (#[trigger] lengths@[t] + 2) as nat,
        ) <= occurring(f, 256) * max_freq(f, 256) by {
            let k = choose|k: int| 0 <= k < leaves@.len() && #[trigger] leaves@[k].1 == t;
            assert(lengths@[leaves@[k].1 as int] == depth@[k]);
        }
        let top = (leaf_count - 1) as nat;
        lemma_range_sum_ext(
            |t: int| if lengths@[t] > 0 { pow2((leaf_count - 1 - lengths@[t]) as nat) as int } else { 0 },
            |t: int| if lengths@[t] > 0 { pow2((top - lengths@[t]) as nat) as int } else { 0 },
            256,
        );
        assert forall|a: int, b: int|
            0 <= a < 256 && 0 <= b < 256 && f[a] > f[b] && f[b] > 0 implies #[trigger] lengths@[a]
            <= #[trigger] lengths@[b] by {
            let ia = choose|k: int| 0 <= k < leaves@.len() && #[trigger] leaves@[k].1 == a;
            let ib = choose|k: int| 0 <= k < leaves@.len() && #[trigger] leaves@[k].1 == b;
            assert(lengths@[leaves@[ia].1 as int] == depth@[ia]);
            assert(lengths@[leaves@[ib].1 as int] == depth@[ib]);
            if ia < ib {
                assert(leaves@[ia].0 <= leaves@[ib].0);
            }
            assert(ia != ib);
        }
    }
    lengths
}

/// The direct weight header for `series`.
pub open spec fn direct_bytes(series: Seq<u8>) -> Seq<u8> {
    seq![(127 + series.len()) as u8] + direct_pairs(series)
}

/// The tree description `write_tree` settles on when the compressed form
/// would have body `body` (if it fits at all): the direct form where it is
/// allowed and no larger, else the compressed form behind its size byte.
pub open spec fn chosen_tree(series: Seq<u8>, body: Option<Seq<u8>>) -> Option<Seq<u8>> {
    let direct_ok = series.len() <= MAX_DIRECT_WEIGHTS;
    match body {
        Some(b) => if direct_ok && 1 + (series.len() + 1) / 2 <= b.len() + 1 {
            Some(direct_bytes(series))
        } else {
            Some(seq![b.len() as u8] + b)
        },
        None => if direct_ok {
            Some(direct_bytes(series))
        } else {
            None
        },
    }
}

/// Writes the tree description, in whichever of the two forms is smaller;
/// `None` where neither can carry the series.
pub fn write_tree(out: &mut Vec<u8>, series: &[u8]) -> (r: Option<()>)
    requires
        series@.len() <= 255,
        forall|i: int| 0 <= i < series@.len() ==> #[trigger] series@[i] < 16,
        old(out)@.len() + 400 < usize::MAX,
    ensures
        !fse_codable(series@) ==> match chosen_tree(series@, None) {
            Some(t) => r is Some && final(out)@ == old(out)@ + t,
            None => r is None && final(out)@ == old(out)@,
        },
        fse_codable(series@) ==> exists|e: Encoder|
            {
                &&& encoder_ok(e, ALPHABET as nat, LOG as nat)
                &&& weights_codable(series@, e)
                &&& match chosen_tree(
                    series@,
                    if header_body(series@, e).len() <= MAX_SIZE {
                        Some(header_body(series@, e))
                    } else {
                        None
                    },
                ) {
                    Some(t) => r is Some && final(out)@ == old(out)@ + t,
                    None => r is None && final(out)@ == old(out)@,
                }
            },
{
    let n = series.len();
    let direct_ok = n <= MAX_DIRECT_WEIGHTS;
    let coded = super::weights::compress(series);
    let ghost start = out@;
    proof {
        if fse_codable(series@) {
            let e = choose|e: Encoder|
                {
                    &&& encoder_ok(e, ALPHABET as nat, LOG as nat)
                    &&& weights_codable(series@, e)
                    &&& (coded is Some <==> header_body(series@, e).len() <= MAX_SIZE)
                    &&& (coded is Some ==> coded->Some_0@ == header_body(series@, e))
                };
            assert(encoder_ok(e, ALPHABET as nat, LOG as nat));
        }
    }
    match coded {
        Some(body) => {
            if direct_ok && 1 + (n + 1) / 2 <= body.len() + 1 {
                write_direct(out, series);
            } else {
                out.push(body.len() as u8);
                let mut k: usize = 0;
                let ghost mid = out@;
                while k < body.len()
                    invariant
                        k <= body@.len() <= MAX_SIZE,
                        mid.len() <= start.len() + 1,
                        start.len() + 400 < usize::MAX,
                        out@ == mid + body@.take(k as int),
                    decreases body@.len() - k,
                {
                    out.push(body[k]);
                    k = k + 1;
                    proof {
                        assert(body@.take(k as int) == body@.take(k - 1).push(body@[k - 1]));
                    }
                }
                proof {
                    assert(body@.take(body@.len() as int) == body@);
                    assert(out@ == start + (seq![body@.len() as u8] + body@));
                }
            }
        },
        None => {
            if direct_ok {
                write_direct(out, series);
            } else {
                return None;
            }
        },
    }
    Some(())
}

/// The sum of the first `k` counts.
pub open spec fn freq_sum(freqs: Seq<u32>, k: int) -> nat
    decreases k,
{
    if k <= 0 {
        0
    } else {
        freq_sum(freqs, k - 1) + freqs[k - 1] as nat
    }
}

/// Every count halved, rounding up.
pub open spec fn halved(freqs: Seq<u32>) -> Seq<u32> {
    Seq::new(freqs.len(), |i: int| (freqs[i] / 2 + freqs[i] % 2) as u32)
}

proof fn lemma_fib_grows(a: nat, b: nat)
    requires
        a <= b,
    ensures
        fib(a) <= fib(b),
    decreases b - a,
{
    if a < b {
        lemma_fib_grows(a, (b - 1) as nat);
        if b >= 2 {
            assert(fib(b) == fib((b - 1) as nat) + fib((b - 2) as nat));
        } else {
            assert(b == 1 && fib(1) == 1);
        }
    }
}

proof fn lemma_halved_sum(freqs: Seq<u32>, k: int)
    requires
        0 <= k <= freqs.len(),
    ensures
        freq_sum(halved(freqs), k) <= freq_sum(freqs, k),
        (exists|t: int| 0 <= t < k && #[trigger] freqs[t] >= 2) ==> freq_sum(halved(freqs), k) < freq_sum(freqs, k),
    decreases k,
{
    if k > 0 {
        lemma_halved_sum(freqs, k - 1);
        let h = halved(freqs);
        assert(h[k - 1] == freqs[k - 1] / 2 + freqs[k - 1] % 2);
        if exists|t: int| 0 <= t < k && #[trigger] freqs[t] >= 2 {
            let t = choose|t: int| 0 <= t < k && #[trigger] freqs[t] >= 2;
            if t < k - 1 {
                assert(exists|t2: int| 0 <= t2 < k - 1 && #[trigger] freqs[t2] >= 2);
            }
        }
    }
}

proof fn lemma_same_support(a: Seq<u32>, b: Seq<u32>, k: int)
    requires
        0 <= k <= a.len(),
        a.len() == b.len(),
        forall|t: int| 0 <= t < a.len() ==> (#[trigger] a[t] > 0) == (b[t] > 0),
    ensures
        occurring(a, k) == occurring(b, k),
    decreases k,
{
    if k > 0 {
        lemma_same_support(a, b, k - 1);
    }
}

proof fn lemma_max_freq_small(freqs: Seq<u32>, k: int)
    requires
        0 <= k <= freqs.len(),
        forall|t: int| 0 <= t < k ==> #[trigger] freqs[t] <= 1,
    ensures
        max_freq(freqs, k) <= 1,
    decreases k,
{
    if k > 0 {
        lemma_max_freq_small(freqs, k - 1);
    }
}

/// Where a code runs past [`MAX_BITS`], some count is two or more: with
/// every count at most one, the Fibonacci bound keeps 256 symbols within
/// eleven bits.
proof fn lemma_long_code_needs_weight(freqs: Seq<u32>, lengths: Seq<u8>, t: int)
    requires
        freqs.len() == 256,
        lengths.len() == 256,
        0 <= t < 256,
        lengths[t] > MAX_BITS,
        freqs[t] > 0,
        forall|s: int|
            0 <= s < 256 && freqs[s] > 0 ==> 1 <= #[trigger] lengths[s] && (lengths[s] as int)
                <= if occurring(freqs, 256) >= 2 {
                occurring(freqs, 256) - 1
            } else {
                1
            },
        forall|s: int|
            0 <= s < 256 && freqs[s] > 0 && occurring(freqs, 256) >= 2 ==> fib(
                (#[trigger] lengths[s] + 2) as nat,
            ) <= occurring(freqs, 256) * max_freq(freqs, 256),
    ensures
        exists|u: int| 0 <= u < 256 && #[trigger] freqs[u] >= 2,
{
    if forall|u: int| 0 <= u < 256 ==> #[trigger] freqs[u] <= 1 {
        lemma_max_freq_small(freqs, 256);
        lemma_occurring_bound(freqs, 256);
        if occurring(freqs, 256) >= 2 {
            assert(fib((lengths[t] + 2) as nat) <= occurring(freqs, 256) * max_freq(freqs, 256));
            assert(occurring(freqs, 256) * max_freq(freqs, 256) <= 256) by (nonlinear_arith)
                requires
                    occurring(freqs, 256) <= 256,
                    max_freq(freqs, 256) <= 1,
            ;
            lemma_fib_grows(14, (lengths[t] + 2) as nat);
            lemma_fib_14();
        }
    }
}

proof fn lemma_fib_14()
    ensures
        fib(14) == 377,
{
    assert(fib(0) == 0);
    assert(fib(1) == 1);
    assert(fib(2) == 1);
    assert(fib(3) == 2);
    assert(fib(4) == 3);
    assert(fib(5) == 5);
    assert(fib(6) == 8);
    assert(fib(7) == 13);
    assert(fib(8) == 21);
    assert(fib(9) == 34);
    assert(fib(10) == 55);
    assert(fib(11) == 89);
    assert(fib(12) == 144);
    assert(fib(13) == 233);
    assert(fib(14) == 377);
}

/// Code lengths for `counts`, none longer than [`MAX_BITS`].
///
/// A plain Huffman tree can be deeper than the format allows. Halving the
/// counts and rebuilding flattens it, and always ends: once every count
/// that occurs is one, a code `len` bits long needs `fib(len + 2)` symbols
/// (the Fibonacci bound of Huffman trees), and 256 symbols stay under
/// `fib(14)`, so no code passes eleven bits.
pub fn code_lengths(counts: &Vec<u32>) -> (r: Vec<u8>)
    requires
        counts@.len() == 256,
    ensures
        r@.len() == 256,
        forall|s: int| 0 <= s < 256 ==> (#[trigger] r@[s] > 0) == (counts@[s] > 0),
        forall|s: int| 0 <= s < 256 ==> #[trigger] r@[s] <= MAX_BITS,
        forall|s: int| 0 <= s < 256 && occurring(counts@, 256) >= 2 ==> #[trigger] r@[s] <= occurring(counts@, 256) - 1,
        occurring(counts@, 256) >= 2 ==> kraft_sum(r@, (occurring(counts@, 256) - 1) as nat) == pow2(
            (occurring(counts@, 256) - 1) as nat,
        ),
{
    let mut freqs: Vec<u32> = Vec::new();
    let mut i: usize = 0;
    while i < 256
        invariant
            counts@.len() == 256,
            i <= 256,
            freqs@ == counts@.take(i as int),
        decreases 256 - i,
    {
        freqs.push(counts[i]);
        i = i + 1;
        proof {
            assert(counts@.take(i as int) == counts@.take(i - 1).push(counts@[i - 1]));
        }
    }
    proof {
        assert(counts@.take(256) == counts@);
    }
    loop
        invariant
            counts@.len() == 256,
            freqs@.len() == 256,
            forall|t: int| 0 <= t < 256 ==> (#[trigger] freqs@[t] > 0) == (counts@[t] > 0),
        decreases freq_sum(freqs@, 256),
    {
        let lengths = huffman(&freqs);
        proof {
            lemma_same_support(freqs@, counts@, 256);
        }
        let mut fits = true;
        let mut k: usize = 0;
        while k < 256
            invariant
                lengths@.len() == 256,
                k <= 256,
                fits <==> forall|t: int| 0 <= t < k ==> #[trigger] lengths@[t] <= MAX_BITS,
            decreases 256 - k,
        {
            if lengths[k] > 11 {
                fits = false;
            }
            k = k + 1;
        }
        if fits {
            proof {
                assert forall|t: int| 0 <= t < 256 implies (#[trigger] lengths@[t] > 0) == (counts@[t] > 0) by {
                    assert((freqs@[t] > 0) == (counts@[t] > 0));
                }
                let top = (occurring(counts@, 256) - 1) as nat;
                assert(occurring(freqs@, 256) == occurring(counts@, 256));
            }
            return lengths;
        }
        proof {
            let t = choose|t: int| 0 <= t < 256 && !(#[trigger] lengths@[t] <= MAX_BITS);
            assert(freqs@[t] > 0);
            lemma_long_code_needs_weight(freqs@, lengths@, t);
            lemma_halved_sum(freqs@, 256);
        }
        let ghost old_freqs = freqs@;
        let mut j: usize = 0;
        while j < 256
            invariant
                freqs@.len() == 256,
                old_freqs.len() == 256,
                j <= 256,
                forall|t: int| 0 <= t < j ==> #[trigger] freqs@[t] == halved(old_freqs)[t],
                forall|t: int| j <= t < 256 ==> #[trigger] freqs@[t] == old_freqs[t],
            decreases 256 - j,
        {
            let f = freqs[j];
            freqs.set(j, f / 2 + f % 2);
            j = j + 1;
        }
        proof {
            assert(freqs@ == halved(old_freqs));
            assert forall|t: int| 0 <= t < 256 implies (#[trigger] freqs@[t] > 0) == (counts@[t] > 0) by {
                assert(freqs@[t] == old_freqs[t] / 2 + old_freqs[t] % 2);
                assert((old_freqs[t] > 0) == (counts@[t] > 0));
            }
        }
    }
}

/// The symbols with codes `b` to [`MAX_BITS`] bits long among the first
/// `k`, each weighed `2^(11 - length)`.
pub open spec fn weight_upto(lengths: Seq<u8>, k: int, b: int) -> int
    decreases MAX_BITS + 1 - b,
{
    if b > MAX_BITS || b < 1 {
        0
    } else {
        count_len(lengths, b, k) * pow2((MAX_BITS - b) as nat) + weight_upto(lengths, k, b + 1)
    }
}

proof fn lemma_weight_upto_step(lengths: Seq<u8>, k: int, b: int)
    requires
        0 <= k < lengths.len(),
        1 <= b,
    ensures
        weight_upto(lengths, k + 1, b) == weight_upto(lengths, k, b) + if b <= lengths[k] <= MAX_BITS {
            pow2((MAX_BITS - lengths[k]) as nat) as int
        } else {
            0
        },
    decreases MAX_BITS + 1 - b,
{
    if b <= MAX_BITS {
        lemma_weight_upto_step(lengths, k, b + 1);
        let p = pow2((MAX_BITS - b) as nat) as int;
        let c = count_len(lengths, b, k) as int;
        assert(count_len(lengths, b, k + 1) == c + if lengths[k] == b {
            1int
        } else {
            0int
        });
        assert((c + 1) * p == c * p + p) by (nonlinear_arith);
    }
}

proof fn lemma_weight_upto_nonneg(lengths: Seq<u8>, k: int, b: int)
    requires
        0 <= k,
    ensures
        weight_upto(lengths, k, b) >= 0,
        1 <= b ==> weight_upto(lengths, k, b + 1) <= weight_upto(lengths, k, b),
    decreases MAX_BITS + 1 - b,
{
    if 1 <= b <= MAX_BITS {
        lemma_weight_upto_nonneg(lengths, k, b + 1);
        vstd::arithmetic::power2::lemma_pow2_pos((MAX_BITS - b) as nat);
        assert(count_len(lengths, b, k) * pow2((MAX_BITS - b) as nat) >= 0) by (nonlinear_arith);
    }
}

/// Kraft's sum at eleven bits counts the same as the weighted lengths.
proof fn lemma_kraft_by_length(lengths: Seq<u8>, k: int)
    requires
        0 <= k <= lengths.len(),
        forall|t: int| 0 <= t < lengths.len() ==> #[trigger] lengths[t] <= MAX_BITS,
    ensures
        range_sum(
            |t: int|
                if lengths[t] > 0 {
                    pow2((MAX_BITS - lengths[t]) as nat) as int
                } else {
                    0
                },
            k,
        ) == weight_upto(lengths, k, 1),
    decreases k,
{
    if k > 0 {
        lemma_kraft_by_length(lengths, k - 1);
        lemma_weight_upto_step(lengths, k - 1, 1);
    } else {
        lemma_weight_upto_zero(lengths, 1);
    }
}

proof fn lemma_weight_upto_zero(lengths: Seq<u8>, b: int)
    ensures
        weight_upto(lengths, 0, b) == 0,
    decreases MAX_BITS + 1 - b,
{
    if 1 <= b <= MAX_BITS {
        lemma_weight_upto_zero(lengths, b + 1);
        assert(count_len(lengths, b, 0) == 0);
        assert(0 * pow2((MAX_BITS - b) as nat) == 0) by (nonlinear_arith);
    }
}

/// Kraft's sum scales with the top: where no code is longer than `t1`,
/// moving the top from `t1` up to `t2` multiplies it by `2^(t2 - t1)`.
proof fn lemma_kraft_scale(lengths: Seq<u8>, t1: nat, t2: nat, k: int)
    requires
        t1 <= t2,
        0 <= k <= lengths.len(),
        forall|t: int| 0 <= t < lengths.len() ==> #[trigger] lengths[t] <= t1,
    ensures
        range_sum(
            |t: int|
                if lengths[t] > 0 {
                    pow2((t2 - lengths[t]) as nat) as int
                } else {
                    0
                },
            k,
        ) == range_sum(
            |t: int|
                if lengths[t] > 0 {
                    pow2((t1 - lengths[t]) as nat) as int
                } else {
                    0
                },
            k,
        ) * pow2((t2 - t1) as nat),
    decreases k,
{
    if k > 0 {
        lemma_kraft_scale(lengths, t1, t2, k - 1);
        let l = lengths[k - 1];
        if l > 0 {
            vstd::arithmetic::power2::lemma_pow2_adds((t1 - l) as nat, (t2 - t1) as nat);
        }
        let a = range_sum(
            |t: int|
                if lengths[t] > 0 {
                    pow2((t1 - lengths[t]) as nat) as int
                } else {
                    0
                },
            k - 1,
        );
        let x = if l > 0 {
            pow2((t1 - l) as nat) as int
        } else {
            0
        };
        assert((a + x) * pow2((t2 - t1) as nat) == a * pow2((t2 - t1) as nat) + x * pow2(
            (t2 - t1) as nat,
        )) by (nonlinear_arith);
    }
}

/// The first code of a length, and the codes of that length, fit in the
/// weighted count of the lengths from there up.
proof fn lemma_start_fits(lengths: Seq<u8>, b: int)
    requires
        1 <= b <= MAX_BITS,
        lengths.len() == 256,
    ensures
        (start_code(lengths, b) + count_len(lengths, b, 256)) * pow2((MAX_BITS - b) as nat)
            <= weight_upto(lengths, 256, b),
    decreases MAX_BITS - b,
{
    vstd::arithmetic::power2::lemma2_to64();
    if b < MAX_BITS {
        lemma_start_fits(lengths, b + 1);
        let sb = start_code(lengths, b + 1) + count_len(lengths, b + 1, 256);
        let p = pow2((MAX_BITS - b - 1) as nat);
        vstd::arithmetic::power2::lemma_pow2_unfold((MAX_BITS - b) as nat);
        assert(start_code(lengths, b) == sb / 2);
        assert((sb / 2) * (2 * p) <= sb * p) by (nonlinear_arith)
            requires
                p >= 0,
                sb >= 0,
        ;
        let st = start_code(lengths, b) as int;
        let c = count_len(lengths, b, 256) as int;
        assert((st + c) * (2 * p) == st * (2 * p) + c * (2 * p)) by (nonlinear_arith);
        assert(weight_upto(lengths, 256, b) == c * (2 * p) + weight_upto(lengths, 256, b + 1));
    } else {
        lemma_weight_upto_zero(lengths, MAX_BITS + 1);
        assert(weight_upto(lengths, 256, MAX_BITS + 1) == 0);
    }
}

proof fn lemma_count_len_grows(lengths: Seq<u8>, b: int, j: int, k: int)
    requires
        0 <= j <= k,
    ensures
        count_len(lengths, b, j) <= count_len(lengths, b, k),
    decreases k - j,
{
    if j < k {
        lemma_count_len_grows(lengths, b, j, k - 1);
    }
}

/// Canonical codes fit their lengths wherever the lengths keep to Kraft's
/// inequality: every code `len` bits long is below `2^len`.
pub proof fn law_canonical_codes_fit(lengths: Seq<u8>)
    requires
        lengths.len() == 256,
        forall|t: int| 0 <= t < 256 ==> #[trigger] lengths[t] <= MAX_BITS,
        kraft_sum(lengths, MAX_BITS as nat) <= pow2(MAX_BITS as nat),
    ensures
        forall|s: int| 0 <= s < 256 ==> (#[trigger] canonical_code(lengths, s) as int) < pow2(
            lengths[s] as nat,
        ),
{
    vstd::arithmetic::power2::lemma2_to64();
    lemma_kraft_by_length(lengths, 256);
    assert forall|s: int| 0 <= s < 256 implies (#[trigger] canonical_code(lengths, s) as int) < pow2(
        lengths[s] as nat,
    ) by {
        let b = lengths[s] as int;
        if 1 <= b {
            lemma_start_fits(lengths, b);
            lemma_count_len_grows(lengths, b, s + 1, 256);
            let mut c = b;
            lemma_weight_chain(lengths, b);
            vstd::arithmetic::power2::lemma_pow2_adds(b as nat, (MAX_BITS - b) as nat);
            let code = canonical_code(lengths, s) as int;
            let q = pow2((MAX_BITS - b) as nat) as int;
            vstd::arithmetic::power2::lemma_pow2_pos((MAX_BITS - b) as nat);
            assert(code + 1 <= start_code(lengths, b) + count_len(lengths, b, 256));
            assert((code + 1) * q <= (start_code(lengths, b) + count_len(lengths, b, 256)) * q) by (nonlinear_arith)
                requires
                    code + 1 <= start_code(lengths, b) + count_len(lengths, b, 256),
                    q > 0,
            ;
            assert(weight_upto(lengths, 256, 1) <= pow2(MAX_BITS as nat));
            assert(pow2(b as nat) * q == pow2(MAX_BITS as nat));
            assert(code * q < pow2(b as nat) * q) by (nonlinear_arith)
                requires
                    (code + 1) * q <= (start_code(lengths, b) + count_len(lengths, b, 256)) * q,
                    (start_code(lengths, b) + count_len(lengths, b, 256)) * q <= pow2(b as nat) * q,
                    q > 0,
            {
                assert((code + 1) * q == code * q + q);
            }
            assert(code < pow2(b as nat)) by (nonlinear_arith)
                requires
                    code * q < pow2(b as nat) * q,
                    q > 0,
            ;
        }
    }
}

proof fn lemma_weight_chain(lengths: Seq<u8>, b: int)
    requires
        1 <= b <= MAX_BITS + 1,
    ensures
        weight_upto(lengths, 256, b) <= weight_upto(lengths, 256, 1),
    decreases b,
{
    if b > 1 {
        lemma_weight_upto_nonneg(lengths, 256, b - 1);
        lemma_weight_chain(lengths, b - 1);
    }
}

/// How often each byte occurs in `lits`.
pub open spec fn byte_counts(lits: Seq<u8>) -> Seq<u32> {
    Seq::new(256, |b: int| count_of(lits, b, lits.len() as int) as u32)
}

/// Lengths that `code_lengths` may give for `counts`: a code for exactly the
/// symbols that occur, none longer than eleven bits nor than one less than
/// the number of symbols, and together a complete prefix code.
pub open spec fn lengths_ok(lengths: Seq<u8>, counts: Seq<u32>) -> bool {
    let occ = occurring(counts, 256);
    &&& lengths.len() == 256
    &&& forall|s: int|
        0 <= s < 256 ==> (#[trigger] lengths[s] > 0) == (counts[s] > 0) && lengths[s] <= MAX_BITS
            && lengths[s] <= occ - 1
    &&& kraft_sum(lengths, (occ - 1) as nat) == pow2((occ - 1) as nat)
}

/// The last of the first `k` symbols that occurs, or `-1`.
pub open spec fn last_present(counts: Seq<u32>, k: int) -> int
    decreases k,
{
    if k <= 0 {
        -1
    } else if counts[k - 1] > 0 {
        k - 1
    } else {
        last_present(counts, k - 1)
    }
}

/// The longest of the first `k` lengths.
pub open spec fn longest(lengths: Seq<u8>, k: int) -> nat
    decreases k,
{
    if k <= 0 {
        0
    } else if lengths[k - 1] > longest(lengths, k - 1) {
        lengths[k - 1] as nat
    } else {
        longest(lengths, k - 1)
    }
}

/// The weights the tree description carries: one per symbol below the
/// last that occurs, which the decoder deduces.
pub open spec fn weight_series(lengths: Seq<u8>, last: int) -> Seq<u8> {
    Seq::new(last as nat, |i: int| weight_spec(lengths[i], longest(lengths, 256) as u32))
}

/// The canonical codes of `lengths`, as `assign_codes` gives them.
pub open spec fn canonical_codes(lengths: Seq<u8>) -> Seq<u16> {
    Seq::new(256, |s: int| canonical_code(lengths, s) as u16)
}

/// The `k`-th of the four quarters of `lits`, each a quarter rounded up but
/// the last.
pub open spec fn quarter_part(lits: Seq<u8>, k: int) -> Seq<u8> {
    let q = (lits.len() + 3) / 4;
    let a = if k * q < lits.len() {
        k * q
    } else {
        lits.len() as int
    };
    let b = if (k + 1) * q < lits.len() {
        (k + 1) * q
    } else {
        lits.len() as int
    };
    lits.subrange(a, b)
}

/// The coded stream of quarter `k`.
pub open spec fn quarter_stream(lits: Seq<u8>, lengths: Seq<u8>, k: int) -> Seq<u8> {
    marked_bytes(stream_fields(quarter_part(lits, k), lengths, canonical_codes(lengths)))
}

/// The jump table and the four streams: the sizes of the first three as
/// little-endian 16-bit numbers, then the streams.
pub open spec fn jump_and_streams(lits: Seq<u8>, lengths: Seq<u8>) -> Seq<u8> {
    let s0 = quarter_stream(lits, lengths, 0);
    let s1 = quarter_stream(lits, lengths, 1);
    let s2 = quarter_stream(lits, lengths, 2);
    let s3 = quarter_stream(lits, lengths, 3);
    crate::le::le_bytes(s0.len(), 2) + crate::le::le_bytes(s1.len(), 2) + crate::le::le_bytes(
        s2.len(),
        2,
    ) + s0 + s1 + s2 + s3
}

/// The first three streams each fit the 16-bit jump table.
pub open spec fn streams_fit(lits: Seq<u8>, lengths: Seq<u8>) -> bool {
    &&& quarter_stream(lits, lengths, 0).len() <= 0xffff
    &&& quarter_stream(lits, lengths, 1).len() <= 0xffff
    &&& quarter_stream(lits, lengths, 2).len() <= 0xffff
}

/// The tree description `write_tree` gives for `series` against encoder
/// `e` for the compressed form.
pub open spec fn tree_for(series: Seq<u8>, e: Encoder) -> Option<Seq<u8>> {
    chosen_tree(
        series,
        if fse_codable(series) && header_body(series, e).len() <= MAX_SIZE {
            Some(header_body(series, e))
        } else {
            None
        },
    )
}

/// `r` is what `compress` gives for `lits` with code lengths `lengths` and,
/// where the weights are coded, encoder `e` for them: the tree
/// description, then the jump table and streams; `None` where there is no
/// description or a stream does not fit the jump table.
pub open spec fn coded_as(lits: Seq<u8>, lengths: Seq<u8>, e: Encoder, r: Option<Vec<u8>>) -> bool {
    let series = weight_series(lengths, last_present(byte_counts(lits), 256));
    &&& lengths_ok(lengths, byte_counts(lits))
    &&& (fse_codable(series) ==> encoder_ok(e, ALPHABET as nat, LOG as nat) && weights_codable(
        series,
        e,
    ))
    &&& match tree_for(series, e) {
        Some(tree) => if streams_fit(lits, lengths) {
            r is Some && r->Some_0@ == tree + jump_and_streams(lits, lengths)
        } else {
            r is None
        },
        None => r is None,
    }
}

proof fn lemma_kraft_at_eleven(lengths: Seq<u8>, t: nat)
    requires
        lengths.len() == 256,
        forall|s: int| 0 <= s < 256 ==> #[trigger] lengths[s] <= MAX_BITS && lengths[s] <= t,
        kraft_sum(lengths, t) == pow2(t),
    ensures
        kraft_sum(lengths, MAX_BITS as nat) == pow2(MAX_BITS as nat),
{
    if t <= MAX_BITS {
        lemma_kraft_scale(lengths, t, MAX_BITS as nat, 256);
        vstd::arithmetic::power2::lemma_pow2_adds(t, (MAX_BITS - t) as nat);
    } else {
        lemma_kraft_scale(lengths, MAX_BITS as nat, t, 256);
        vstd::arithmetic::power2::lemma_pow2_adds(MAX_BITS as nat, (t - MAX_BITS) as nat);
        vstd::arithmetic::power2::lemma_pow2_pos((t - MAX_BITS) as nat);
        let k = kraft_sum(lengths, MAX_BITS as nat);
        let f = pow2((t - MAX_BITS) as nat) as int;
        assert(k * f == pow2(MAX_BITS as nat) * f);
        assert(k == pow2(MAX_BITS as nat)) by (nonlinear_arith)
            requires
                k * f == pow2(MAX_BITS as nat) * f,
                f > 0,
        ;
    }
}

/// How often each byte occurs in `literals`.
fn literal_histogram(literals: &[u8]) -> (counts: Vec<u32>)
    requires
        literals@.len() <= 0xffff_ffff,
    ensures
        counts@ == byte_counts(literals@),
{
    let n = literals.len();
    let mut counts: Vec<u32> = vec![0u32; 256];
    let mut i: usize = 0;
    while i < n
        invariant
            n == literals@.len() <= 0xffff_ffff,
            i <= n,
            counts@.len() == 256,
            forall|v: int| 0 <= v < 256 ==> #[trigger] counts@[v] == count_of(literals@, v, i as int),
        decreases n - i,
    {
        let byte = literals[i] as usize;
        proof {
            super::weights::lemma_count_of_bound(literals@, byte as int, i as int);
        }
        counts.set(byte, counts[byte] + 1);
        i = i + 1;
    }
    proof {
        assert(counts@ == byte_counts(literals@));
    }
    counts
}

/// The last byte that occurs, `None` where none does.
fn last_occurring(counts: &Vec<u32>) -> (r: Option<usize>)
    requires
        counts@.len() == 256,
    ensures
        match r {
            Some(l) => l < 256 && l == last_present(counts@, 256),
            None => occurring(counts@, 256) == 0,
        },
{
    let mut k: usize = 256;
    while k > 0
        invariant
            k <= 256,
            counts@.len() == 256,
            last_present(counts@, 256) == last_present(counts@, k as int),
        decreases k,
    {
        if counts[k - 1] > 0 {
            return Some(k - 1);
        }
        k = k - 1;
    }
    proof {
        lemma_no_present(counts@, 256);
    }
    None
}

/// How many bytes occur.
fn count_occurring(counts: &Vec<u32>) -> (r: usize)
    requires
        counts@.len() == 256,
    ensures
        r == occurring(counts@, 256),
{
    let mut distinct: usize = 0;
    let mut j: usize = 0;
    while j < 256
        invariant
            j <= 256,
            counts@.len() == 256,
            distinct == occurring(counts@, j as int),
            distinct <= j,
        decreases 256 - j,
    {
        if counts[j] > 0 {
            distinct = distinct + 1;
        }
        j = j + 1;
    }
    distinct
}

/// The weights of the symbols below `last`.
fn series_of(lengths: &Vec<u8>, last: usize) -> (series: Vec<u8>)
    requires
        lengths@.len() == 256,
        last < 256,
        forall|t: int| 0 <= t < 256 ==> #[trigger] lengths@[t] <= MAX_BITS,
    ensures
        series@ == weight_series(lengths@, last as int),
        forall|i: int| 0 <= i < series@.len() ==> #[trigger] series@[i] < 16,
{
    let mut max_bits: u8 = 0;
    let mut j: usize = 0;
    while j < 256
        invariant
            j <= 256,
            lengths@.len() == 256,
            max_bits == longest(lengths@, j as int),
            forall|t: int| 0 <= t < j ==> #[trigger] lengths@[t] <= max_bits,
            max_bits <= MAX_BITS,
            forall|t: int| 0 <= t < 256 ==> #[trigger] lengths@[t] <= MAX_BITS,
        decreases 256 - j,
    {
        if lengths[j] > max_bits {
            max_bits = lengths[j];
        }
        j = j + 1;
    }
    let mut series: Vec<u8> = Vec::new();
    let mut j: usize = 0;
    while j < last
        invariant
            j <= last < 256,
            lengths@.len() == 256,
            max_bits == longest(lengths@, 256),
            forall|t: int| 0 <= t < 256 ==> #[trigger] lengths@[t] <= max_bits,
            max_bits <= MAX_BITS,
            series@ == weight_series(lengths@, last as int).take(j as int),
            forall|i: int| 0 <= i < series@.len() ==> #[trigger] series@[i] < 16,
        decreases last - j,
    {
        let w = weight(lengths[j], max_bits as u32);
        series.push(w);
        j = j + 1;
        proof {
            assert(weight_series(lengths@, last as int).take(j as int) == weight_series(
                lengths@,
                last as int,
            ).take(j - 1).push(w));
        }
    }
    proof {
        assert(series@ == weight_series(lengths@, last as int));
    }
    series
}

/// A tree description is at most 129 bytes long.
proof fn lemma_tree_len(series: Seq<u8>, body: Option<Seq<u8>>)
    requires
        series.len() <= 255,
        body is Some ==> body->Some_0.len() <= MAX_SIZE,
    ensures
        chosen_tree(series, body) is Some ==> chosen_tree(series, body)->Some_0.len() <= 129,
{
}

/// Huffman-codes `literals` into a `Literals_Section_Content`: the tree
/// description, the jump table and the four streams.
///
/// `None` where the input cannot or should not be coded this way: fewer
/// than [`MIN_LITERALS`] literals, fewer than two distinct ones, no tree
/// description that carries the weights, or a stream too long for the
/// jump table.
#[verifier::rlimit(100)]
pub fn compress(literals: &[u8]) -> (r: Option<Vec<u8>>)
    requires
        literals@.len() <= 0xffff_ffff,
        3 * literals@.len() + 1024 < usize::MAX,
    ensures
        literals@.len() < MIN_LITERALS ==> r is None,
        occurring(byte_counts(literals@), 256) < 2 ==> r is None,
        literals@.len() >= MIN_LITERALS && occurring(byte_counts(literals@), 256) >= 2 ==> exists|
            lengths: Seq<u8>,
            e: Encoder,
        | #[trigger] coded_as(literals@, lengths, e, r),
{
    if literals.len() < MIN_LITERALS {
        return None;
    }
    let counts = literal_histogram(literals);
    let last = match last_occurring(&counts) {
        Some(l) => l,
        None => {
            return None;
        },
    };
    if count_occurring(&counts) < 2 {
        return None;
    }
    let lengths = code_lengths(&counts);
    let codes = assign_codes(&lengths);
    proof {
        let occ = occurring(counts@, 256);
        lemma_kraft_at_eleven(lengths@, (occ - 1) as nat);
        law_canonical_codes_fit(lengths@);
        assert(codes@ == canonical_codes(lengths@));
    }
    let series = series_of(&lengths, last);
    let mut out: Vec<u8> = Vec::new();
    let tree_ok = write_tree(&mut out, &series);
    let ghost e: Encoder = choose|e: Encoder|
        fse_codable(series@) ==> {
            &&& #[trigger] encoder_ok(e, ALPHABET as nat, LOG as nat)
            &&& weights_codable(series@, e)
            &&& match chosen_tree(
                series@,
                if header_body(series@, e).len() <= MAX_SIZE {
                    Some(header_body(series@, e))
                } else {
                    None
                },
            ) {
                Some(t) => tree_ok is Some && out@ == Seq::<u8>::empty() + t,
                None => tree_ok is None && out@ == Seq::<u8>::empty(),
            }
        };
    let ghost tree = out@;
    proof {
        assert(out@ == Seq::<u8>::empty() + out@);
        assert(tree_for(series@, e) is Some ==> tree_for(series@, e) == Some(tree));
        assert(tree_for(series@, e) is None ==> tree_ok is None);
        lemma_tree_len(
            series@,
            if fse_codable(series@) && header_body(series@, e).len() <= MAX_SIZE {
                Some(header_body(series@, e))
            } else {
                None
            },
        );
    }
    if tree_ok.is_none() {
        proof {
            assert(coded_as(literals@, lengths@, e, None));
        }
        return None;
    }
    let at = out.len();
    out.push(0);
    out.push(0);
    out.push(0);
    out.push(0);
    out.push(0);
    out.push(0);
    let ghost zeros = out@.subrange(at as int, at + 6);
    proof {
        assert(out@ == tree + zeros);
    }
    let sizes = write_quarters(&mut out, literals, &lengths, &codes);
    let ghost body = out@;
    let fits = patch_jump(&mut out, at, &sizes);
    let ghost s0 = quarter_stream(literals@, lengths@, 0);
    let ghost s1 = quarter_stream(literals@, lengths@, 1);
    let ghost s2 = quarter_stream(literals@, lengths@, 2);
    let ghost s3 = quarter_stream(literals@, lengths@, 3);
    if !fits {
        proof {
            assert(coded_as(literals@, lengths@, e, None));
        }
        return None;
    }
    proof {
        assert(body == tree + zeros + s0 + s1 + s2 + s3);
        assert(body.subrange(0, at as int) == tree);
        assert(body.subrange(at + 6, body.len() as int) == s0 + s1 + s2 + s3);
        assert(out@ == tree + jump_and_streams(literals@, lengths@));
        assert(coded_as(literals@, lengths@, e, Some(out)));
    }
    Some(out)
}

/// Writes quarter `k` of `literals` as a coded stream and returns its size.
fn write_quarter(out: &mut Vec<u8>, literals: &[u8], k: usize, lengths: &Vec<u8>, codes: &Vec<u16>) -> (size: usize)
    requires
        k < 4,
        lengths@.len() == 256,
        codes@ == canonical_codes(lengths@),
        forall|b: int|
            0 <= b < 256 ==> #[trigger] lengths@[b] <= MAX_BITS && (codes@[b] as int) < pow2(
                lengths@[b] as nat,
            ),
        3 * literals@.len() + 1024 < usize::MAX,
        old(out)@.len() + 2 * ((literals@.len() + 3) / 4) + 16 < usize::MAX,
    ensures
        final(out)@ == old(out)@ + quarter_stream(literals@, lengths@, k as int),
        size == quarter_stream(literals@, lengths@, k as int).len(),
        size <= 2 * ((literals@.len() + 3) / 4) + 1,
{
    let n = literals.len();
    let q = (n + 3) / 4;
    proof {
        assert(k * q + q == (k + 1) * q) by (nonlinear_arith);
        assert((k + 1) * q <= 4 * q) by (nonlinear_arith)
            requires
                k < 4,
        ;
    }
    let a = if k * q < n {
        k * q
    } else {
        n
    };
    let b = if (k + 1) * q < n {
        (k + 1) * q
    } else {
        n
    };
    let before = out.len();
    proof {
        assert(literals@.subrange(a as int, b as int) == quarter_part(literals@, k as int));
    }
    write_stream(out, &literals[a..b], lengths, codes);
    out.len() - before
}

/// Writes the four quarters of `literals` as coded streams and returns the
/// sizes of the first three.
fn write_quarters(out: &mut Vec<u8>, literals: &[u8], lengths: &Vec<u8>, codes: &Vec<u16>) -> (sizes: Vec<usize>)
    requires
        lengths@.len() == 256,
        codes@ == canonical_codes(lengths@),
        forall|b: int|
            0 <= b < 256 ==> #[trigger] lengths@[b] <= MAX_BITS && (codes@[b] as int) < pow2(
                lengths@[b] as nat,
            ),
        old(out)@.len() <= 300,
        3 * literals@.len() + 1024 < usize::MAX,
    ensures
        final(out)@ == old(out)@ + quarter_stream(literals@, lengths@, 0) + quarter_stream(
            literals@,
            lengths@,
            1,
        ) + quarter_stream(literals@, lengths@, 2) + quarter_stream(literals@, lengths@, 3),
        sizes@.len() == 3,
        sizes@[0] == quarter_stream(literals@, lengths@, 0).len(),
        sizes@[1] == quarter_stream(literals@, lengths@, 1).len(),
        sizes@[2] == quarter_stream(literals@, lengths@, 2).len(),
{
    let s0 = write_quarter(out, literals, 0, lengths, codes);
    let s1 = write_quarter(out, literals, 1, lengths, codes);
    let s2 = write_quarter(out, literals, 2, lengths, codes);
    write_quarter(out, literals, 3, lengths, codes);
    vec![s0, s1, s2]
}

/// The two little-endian bytes of `v`.
proof fn lemma_le_two(v: nat)
    ensures
        crate::le::le_bytes(v, 2) == seq![(v % 256) as u8, ((v / 256) % 256) as u8],
{
    reveal_with_fuel(crate::le::le_bytes, 3);
    assert(crate::le::le_bytes(v, 2) == seq![(v % 256) as u8] + (seq![((v / 256) % 256) as u8]
        + Seq::<u8>::empty()));
}

/// Fills in the jump table at `at` with the three sizes, little-endian;
/// `false` where one does not fit in 16 bits.
fn patch_jump(out: &mut Vec<u8>, at: usize, sizes: &Vec<usize>) -> (fits: bool)
    requires
        sizes@.len() == 3,
        at + 6 <= old(out)@.len(),
    ensures
        fits <==> (sizes@[0] <= 0xffff && sizes@[1] <= 0xffff && sizes@[2] <= 0xffff),
        fits ==> final(out)@ == old(out)@.subrange(0, at as int) + crate::le::le_bytes(
            sizes@[0] as nat,
            2,
        ) + crate::le::le_bytes(sizes@[1] as nat, 2) + crate::le::le_bytes(sizes@[2] as nat, 2)
            + old(out)@.subrange(at + 6, old(out)@.len() as int),
{
    let ghost start = out@;
    let mut t: usize = 0;
    while t < 3
        invariant
            t <= 3,
            sizes@.len() == 3,
            at + 6 <= out.len(),
            out@.len() == start.len(),
            forall|i: int|
                0 <= i < start.len() && !(at <= i < at + 2 * t) ==> #[trigger] out@[i] == start[i],
            forall|j: int| 0 <= j < t ==> #[trigger] sizes@[j] <= 0xffff,
            forall|j: int|
                0 <= j < t ==> #[trigger] out@[at + 2 * j] == (sizes@[j] % 256) as u8 && out@[at + 2
                    * j + 1] == ((sizes@[j] / 256) % 256) as u8,
        decreases 3 - t,
    {
        let size = sizes[t];
        if size > 0xffff {
            return false;
        }
        let ghost prev = out@;
        out.set(at + 2 * t, (size % 256) as u8);
        out.set(at + 2 * t + 1, ((size / 256) % 256) as u8);
        proof {
            assert forall|j: int| 0 <= j < t + 1 implies #[trigger] out@[at + 2 * j] == (sizes@[j]
                % 256) as u8 && out@[at + 2 * j + 1] == ((sizes@[j] / 256) % 256) as u8 by {
                if j < t {
                    assert(prev[at + 2 * j] == (sizes@[j] % 256) as u8);
                }
            }
        }
        t = t + 1;
    }
    proof {
        let tail = start.subrange(at + 6, start.len() as int);
        let want = start.subrange(0, at as int) + crate::le::le_bytes(sizes@[0] as nat, 2)
            + crate::le::le_bytes(sizes@[1] as nat, 2) + crate::le::le_bytes(sizes@[2] as nat, 2)
            + tail;
        lemma_le_two(sizes@[0] as nat);
        lemma_le_two(sizes@[1] as nat);
        lemma_le_two(sizes@[2] as nat);
        assert(out@ =~= want) by {
            assert forall|i: int| 0 <= i < out@.len() implies out@[i] == want[i] by {
                if at <= i < at + 6 {
                    let j = (i - at) / 2;
                    assert(out@[at + 2 * j] == (sizes@[j] % 256) as u8);
                }
            }
        }
    }
    true
}

proof fn lemma_no_present(counts: Seq<u32>, k: int)
    requires
        0 <= k <= counts.len(),
        last_present(counts, k) == -1,
    ensures
        occurring(counts, k) == 0,
    decreases k,
{
    if k > 0 {
        lemma_no_present(counts, k - 1);
    }
}

} // verus!
