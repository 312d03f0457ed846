//! Price-based parsing of one block: positions are nodes, an edge is one
//! literal or one match, and each edge weighs what it will cost once
//! entropy-coded. Every node keeps the cheapest path into it found so far,
//! priced against the literal run and repeat offsets of that path, and the
//! block is read back along the path into its last node.
use super::matcher::{agree, common_prefix, Match, MAX_MATCH, MIN_MATCH};
use super::distribution::{log2_fixed, log2_fixed_spec};
use super::sequences::{is_code, ll_base, ll_extra, ml_base, ml_extra};
use super::weights::count_of;
use crate::fse::{ll_default, ll_dist, ml_default, ml_dist, of_default, of_dist, LL_LOG, ML_LOG, OF_LOG};
use vstd::prelude::*;

verus! {

/// Lengths above this are priced only at their full extent.
pub const RELAX_LIMIT: usize = 32;

/// Shortest match tried at a repeat offset: the format's shortest match.
pub const MIN_REPEAT_MATCH: usize = 3;

/// The most bytes one block spans.
pub const MAX_SPAN: usize = 0x2_0000;

/// The price of a node no path reaches.
pub const UNREACHED: i64 = 0x7fff_ffff_ffff_ffff;

/// What each symbol costs, in 1/256ths of a bit.
pub struct Prices {
    pub literal: [u32; 256],
    pub literal_len: [u32; 36],
    pub match_len: [u32; 53],
    pub offset: [u32; 32],
}

/// The repeat offsets after a sequence with `literal_len` literals and a
/// match `offset` back, and the offset value that codes it (RFC 8478,
/// section 3.1.1.5): a repeat offset is named by its rank, shifted by one
/// when no literals come first, and any other offset by itself plus three.
pub open spec fn offset_code(history: Seq<u32>, offset: int, literal_len: int) -> (int, Seq<u32>) {
    let r0 = history[0] as int;
    let r1 = history[1] as int;
    let r2 = history[2] as int;
    if literal_len > 0 {
        if offset == r0 {
            (1, history)
        } else if offset == r1 {
            (2, seq![history[1], history[0], history[2]])
        } else if offset == r2 {
            (3, seq![history[2], history[0], history[1]])
        } else {
            (offset + 3, seq![offset as u32, history[0], history[1]])
        }
    } else {
        if offset == r1 {
            (1, seq![history[1], history[0], history[2]])
        } else if offset == r2 {
            (2, seq![history[2], history[0], history[1]])
        } else if offset == r0 - 1 {
            (3, seq![(r0 - 1) as u32, history[0], history[1]])
        } else {
            (offset + 3, seq![offset as u32, history[0], history[1]])
        }
    }
}

/// Codes a match `offset` back after `literal_len` literals against the
/// repeat offsets `history`.
pub fn encode_offset(history: [u32; 3], offset: u32, literal_len: u32) -> (r: (u32, [u32; 3]))
    requires
        1 <= offset <= 0xffff_0000,
    ensures
        (r.0 as int, r.1@) == offset_code(history@, offset as int, literal_len as int),
        r.0 >= 1,
{
    let r0 = history[0];
    let r1 = history[1];
    let r2 = history[2];
    let r = if literal_len > 0 {
        if offset == r0 {
            (1u32, [r0, r1, r2])
        } else if offset == r1 {
            (2u32, [r1, r0, r2])
        } else if offset == r2 {
            (3u32, [r2, r0, r1])
        } else {
            (offset + 3, [offset, r0, r1])
        }
    } else {
        if offset == r1 {
            (1u32, [r1, r0, r2])
        } else if offset == r2 {
            (2u32, [r2, r0, r1])
        } else if r0 > 0 && offset == r0 - 1 {
            (3u32, [r0 - 1, r0, r1])
        } else {
            (offset + 3, [offset, r0, r1])
        }
    };
    proof {
        assert(r.1@ =~= offset_code(history@, offset as int, literal_len as int).1);
    }
    r
}

/// The offsets a repeat code can name after a run of `run` literals: the
/// three repeat offsets, or with no literals the second, third and first
/// less one.
pub fn repeat_candidates(history: [u32; 3], run: u32) -> (r: [u32; 3])
    ensures
        run > 0 ==> r@ == history@,
        run == 0 ==> r@ == seq![history[1], history[2], if history[0] > 0 {
            (history[0] - 1) as u32
        } else {
            0u32
        }],
{
    let r = if run > 0 {
        history
    } else {
        [history[1], history[2], if history[0] > 0 {
            history[0] - 1
        } else {
            0
        }]
    };
    proof {
        if run == 0 {
            assert(r@ =~= seq![history[1], history[2], if history[0] > 0 {
                (history[0] - 1) as u32
            } else {
                0u32
            }]);
        }
    }
    r
}

/// What naming one occurrence out of `total` costs, in 1/256ths of a bit:
/// a flat eight bits when nothing was counted, and for an unseen symbol the
/// cost of the rarest thing plus a two-bit penalty.
pub open spec fn entropy_spec(count: nat, total: nat) -> nat {
    if total == 0 {
        2048
    } else if count == 0 {
        log2_fixed_spec(total) + 512
    } else if log2_fixed_spec(total) >= log2_fixed_spec(count) {
        (log2_fixed_spec(total) - log2_fixed_spec(count)) as nat
    } else {
        0
    }
}

/// Bits to name one occurrence out of `total`, in 1/256ths.
pub fn entropy(count: u32, total: u32) -> (r: u32)
    ensures
        r == entropy_spec(count as nat, total as nat),
        r < 0x2000 + 512,
{
    if total == 0 {
        return 2048;
    }
    if count == 0 {
        return log2_fixed(total) + 512;
    }
    let t = log2_fixed(total);
    let c = log2_fixed(count);
    if t >= c {
        t - c
    } else {
        0
    }
}

/// What a code costs under a predefined distribution at accuracy `log`:
/// the log of the table size less the log of its points (one point for a
/// code the distribution does not list, or a "less than one").
pub open spec fn predefined_spec(dist: Seq<i16>, log: nat, code: int) -> nat {
    let points: nat = if code < dist.len() && dist[code] > 1 {
        dist[code] as nat
    } else {
        1
    };
    if log * 256 >= log2_fixed_spec(points) {
        (log * 256 - log2_fixed_spec(points)) as nat
    } else {
        0
    }
}

/// Bits a code costs under one of the format's predefined distributions.
pub fn predefined(dist: &Vec<i16>, log: u32, code: usize) -> (r: u32)
    requires
        log <= 15,
    ensures
        r == predefined_spec(dist@, log as nat, code as int),
        r <= 15 * 256,
{
    let points: u32 = if code < dist.len() && dist[code] > 1 {
        dist[code] as u32
    } else {
        1
    };
    let l = log2_fixed(points);
    if log * 256 >= l {
        log * 256 - l
    } else {
        0
    }
}

/// The price of a literal seen `count` times out of `total`: its entropy,
/// kept between one bit and eleven, what a Huffman code can charge.
pub open spec fn literal_price(count: nat, total: nat) -> nat {
    let e = entropy_spec(count, total);
    if e < 256 {
        256
    } else if e > 11 * 256 {
        11 * 256
    } else {
        e
    }
}

impl Prices {
    /// Prices for the first pass, before any parse exists: literals by
    /// their frequency in `block`, sequence codes by the format's
    /// predefined distributions plus their extra bits.
    pub fn seed(block: &[u8]) -> (r: Prices)
        requires
            block@.len() <= 0xffff_ffff,
        ensures
            forall|b: int|
                0 <= b < 256 ==> #[trigger] r.literal@[b] == literal_price(
                    count_of(block@, b, block@.len() as int),
                    block@.len(),
                ),
            forall|c: int|
                0 <= c < 36 ==> #[trigger] r.literal_len@[c] == predefined_spec(ll_dist(), LL_LOG as nat, c)
                    + ll_extra()[c] * 256,
            forall|c: int|
                0 <= c < 53 ==> #[trigger] r.match_len@[c] == predefined_spec(ml_dist(), ML_LOG as nat, c)
                    + ml_extra()[c] * 256,
            forall|c: int|
                0 <= c < 32 ==> #[trigger] r.offset@[c] == predefined_spec(of_dist(), OF_LOG as nat, c) + c
                    * 256,
    {
        let n = block.len();
        let mut counts: Vec<u32> = vec![0u32; 256];
        let mut i: usize = 0;
        while i < n
            invariant
                n == block@.len() <= 0xffff_ffff,
                i <= n,
                counts@.len() == 256,
                forall|v: int| 0 <= v < 256 ==> #[trigger] counts@[v] == count_of(block@, v, i as int),
            decreases n - i,
        {
            let byte = block[i] as usize;
            proof {
                super::weights::lemma_count_of_bound(block@, byte as int, i as int);
            }
            counts.set(byte, counts[byte] + 1);
            i = i + 1;
        }
        let mut r = Prices { literal: [0; 256], literal_len: [0; 36], match_len: [0; 53], offset: [0; 32] };
        let mut b: usize = 0;
        while b < 256
            invariant
                n == block@.len() <= 0xffff_ffff,
                counts@.len() == 256,
                forall|v: int| 0 <= v < 256 ==> #[trigger] counts@[v] == count_of(block@, v, n as int),
                b <= 256,
                forall|v: int| 0 <= v < b ==> #[trigger] r.literal@[v] == literal_price(
                    count_of(block@, v, n as int),
                    n as nat,
                ),
            decreases 256 - b,
        {
            let e = entropy(counts[b], n as u32);
            let price = if e < 256 {
                256
            } else if e > 11 * 256 {
                11 * 256
            } else {
                e
            };
            r.literal[b] = price;
            b = b + 1;
        }
        proof {
            super::sequences::lemma_tables_fit();
        }
        let ll = ll_default();
        let ml = ml_default();
        let of = of_default();
        let ll_extra_t = super::sequences::ll_extra_table();
        let ml_extra_t = super::sequences::ml_extra_table();
        let ghost lit = r.literal@;
        let mut c: usize = 0;
        while c < 53
            invariant
                ll@ == ll_dist(),
                ml@ == ml_dist(),
                of@ == of_dist(),
                ll_extra_t@ == ll_extra(),
                ml_extra_t@ == ml_extra(),
                r.literal@ == lit,
                c <= 53,
                forall|k: int| 0 <= k < c && k < 36 ==> #[trigger] r.literal_len@[k] == predefined_spec(
                    ll_dist(),
                    LL_LOG as nat,
                    k,
                ) + ll_extra()[k] * 256,
                forall|k: int| 0 <= k < c ==> #[trigger] r.match_len@[k] == predefined_spec(
                    ml_dist(),
                    ML_LOG as nat,
                    k,
                ) + ml_extra()[k] * 256,
                forall|k: int| 0 <= k < c && k < 32 ==> #[trigger] r.offset@[k] == predefined_spec(
                    of_dist(),
                    OF_LOG as nat,
                    k,
                ) + k * 256,
            decreases 53 - c,
        {
            if c < 36 {
                r.literal_len[c] = predefined(&ll, LL_LOG, c) + ll_extra_t[c] * 256;
            }
            r.match_len[c] = predefined(&ml, ML_LOG, c) + ml_extra_t[c] * 256;
            if c < 32 {
                r.offset[c] = predefined(&of, OF_LOG, c) + (c as u32) * 256;
            }
            c = c + 1;
        }
        r
    }

}

impl Prices {
    /// The price of the literals-length code of a run of `len` literals.
    #[verifier::spinoff_prover]
    pub fn literal_run(&self, len: usize) -> (r: i64)
        requires
            len <= 0xffff_ffff,
        ensures
            0 <= r <= 0xffff_ffff,
            exists|c: int| is_code(ll_base(), len as int, c) && r == self.literal_len@[c],
    {
        proof {
            super::sequences::lemma_bases_rising();
        }
        let bases = super::sequences::ll_base_table();
        let c = super::sequences::code_of(&bases, len as u32);
        self.literal_len[c as usize] as i64
    }

    /// The price of the match-length code of a match of `len` bytes.
    #[verifier::spinoff_prover]
    pub fn match_run(&self, len: usize) -> (r: i64)
        requires
            3 <= len <= 0xffff_ffff,
        ensures
            0 <= r <= 0xffff_ffff,
            exists|c: int| is_code(ml_base(), len as int, c) && r == self.match_len@[c],
    {
        proof {
            super::sequences::lemma_bases_rising();
        }
        let bases = super::sequences::ml_base_table();
        let c = super::sequences::code_of(&bases, len as u32);
        self.match_len[c as usize] as i64
    }

    /// The price of the offset code of offset value `value`: the position
    /// of its top bit.
    pub fn offset_value(&self, value: u32) -> (r: i64)
        requires
            value >= 1,
        ensures
            0 <= r <= 0xffff_ffff,
            r == self.offset@[super::frame::bit_length(value as nat) - 1],
    {
        let b = super::frame::bit_len(value as u64);
        proof {
            super::frame::lemma_bit_length(value as nat);
            vstd::arithmetic::power2::lemma2_to64();
            if b > 32 {
                vstd::arithmetic::power2::lemma_pow2_strictly_increases(32, (b - 1) as nat);
            }
        }
        self.offset[(b - 1) as usize] as i64
    }
}


/// Every match the match finder offers inside one block: the candidates of
/// block index `i` are `items[starts[i]..starts[i + 1]]`, each a length
/// and an offset; `searched[i]` says whether index `i` was searched at all.
pub struct Candidates {
    pub items: Vec<(u32, u32)>,
    pub starts: Vec<u32>,
    pub searched: Vec<bool>,
}

/// A candidate at block index `i` of the block `start..end` is a real
/// match: at least [`MIN_MATCH`] bytes that agree with those `offset`
/// back, within the block and no further back than the input's start.
pub open spec fn candidate_ok(input: Seq<u8>, start: int, end: int, i: int, item: (u32, u32)) -> bool {
    let (len, offset) = item;
    &&& MIN_MATCH <= len <= MAX_MATCH
    &&& start + i + len <= end
    &&& 1 <= offset <= start + i
    &&& agree(input, start + i - offset, start + i, len as int)
}

/// The candidates are laid out for the block `start..end`, and every one is
/// a real match.
pub open spec fn candidates_ok(c: Candidates, input: Seq<u8>, start: int, end: int) -> bool {
    let span = end - start;
    &&& c.starts@.len() == span + 1
    &&& c.searched@.len() == span
    &&& forall|i: int| 0 <= i <= span ==> #[trigger] c.starts@[i] <= c.items@.len()
    &&& forall|i: int| 0 <= i < span ==> #[trigger] c.starts@[i] <= c.starts@[i + 1]
    &&& forall|i: int, k: int|
        0 <= i < span && c.starts@[i] <= k < c.starts@[i + 1] ==> #[trigger] candidate_ok(
            input,
            start,
            end,
            i,
            #[trigger] c.items@[k],
        )
}

/// The best path found into one block index.
#[derive(Clone, Copy)]
pub struct Node {
    /// Total price of the path, including the literals-length code of the
    /// run still open at this index.
    pub price: i64,
    /// Literals immediately before this index on that path.
    pub literal_len: u32,
    /// Length of the match that arrived here, or zero for a literal.
    pub match_len: u32,
    pub offset: u32,
    pub repeats: [u32; 3],
}

/// A path reaches the node.
pub open spec fn reached(n: Node) -> bool {
    n.price != UNREACHED
}

/// The bound on the price of a path into block index `j`.
pub open spec fn price_cap(j: int) -> int {
    (j + 1) * 0x3_0000_0000
}

/// `n` is a sound entry for block index `j`: reached at a bounded price,
/// by a literal from a reached index just before, or by a real match from
/// a reached index `match_len` before.
pub open spec fn entry_ok(input: Seq<u8>, start: int, nodes: Seq<Node>, j: int, n: Node) -> bool {
    let m = n.match_len as int;
    let p = start + j - m;
    &&& reached(n)
    &&& -price_cap(j) <= n.price <= price_cap(j)
    &&& n.literal_len <= j
    &&& m == 0 ==> 1 <= j && reached(nodes[j - 1])
    &&& m > 0 ==> m <= j && reached(nodes[j - m]) && 1 <= n.offset <= p && agree(
        input,
        p - n.offset,
        p,
        m,
    )
}

/// Node `j` is unreached or soundly reached.
pub open spec fn node_ok(input: Seq<u8>, start: int, nodes: Seq<Node>, j: int) -> bool {
    reached(nodes[j]) ==> entry_ok(input, start, nodes, j, nodes[j])
}

/// The nodes of a block `span` long: the start is reached at a bounded
/// price, and every other node is unreached or soundly reached.
pub open spec fn nodes_ok(input: Seq<u8>, start: int, nodes: Seq<Node>, span: int) -> bool {
    &&& nodes.len() == span + 1
    &&& reached(nodes[0])
    &&& -price_cap(0) <= nodes[0].price <= price_cap(0)
    &&& nodes[0].literal_len == 0
    &&& forall|j: int| 1 <= j <= span ==> #[trigger] node_ok(input, start, nodes, j)
}

/// Replaces node `j` by `cand` where it is cheaper.
fn relax(nodes: &mut Vec<Node>, j: usize, cand: Node)
    requires
        j < old(nodes)@.len(),
    ensures
        final(nodes)@ == if cand.price < old(nodes)@[j as int].price {
            old(nodes)@.update(j as int, cand)
        } else {
            old(nodes)@
        },
{
    if cand.price < nodes[j].price {
        nodes.set(j, cand);
    }
}

/// Relaxing a node with a sound entry keeps the nodes sound, and keeps
/// every reached node reached.
proof fn lemma_relax(input: Seq<u8>, start: int, span: int, old_nodes: Seq<Node>, j: int, cand: Node, new_nodes: Seq<Node>)
    requires
        nodes_ok(input, start, old_nodes, span),
        1 <= j <= span,
        entry_ok(input, start, old_nodes, j, cand),
        new_nodes == if cand.price < old_nodes[j].price {
            old_nodes.update(j, cand)
        } else {
            old_nodes
        },
    ensures
        nodes_ok(input, start, new_nodes, span),
        forall|k: int| 0 <= k <= span && reached(old_nodes[k]) ==> #[trigger] reached(new_nodes[k]),
        forall|k: int| 0 <= k <= span && k != j ==> #[trigger] new_nodes[k] == old_nodes[k],
{
    assert forall|k: int| 0 <= k <= span && reached(old_nodes[k]) implies #[trigger] reached(new_nodes[k]) by {
    }
    assert forall|k: int| 1 <= k <= span implies #[trigger] node_ok(input, start, new_nodes, k) by {
        assert(node_ok(input, start, old_nodes, k));
        let n = new_nodes[k];
        if reached(n) {
            let m = n.match_len as int;
            if m == 0 {
                assert(reached(old_nodes[k - 1]) ==> reached(new_nodes[k - 1]));
            } else {
                assert(reached(old_nodes[k - m]) ==> reached(new_nodes[k - m]));
            }
        }
    }
}


/// Where the sequences `ms` leave off when they are read from `start`:
/// each copies its literals, then `match_len` bytes that agree with those
/// `offset` back (a match may reach before `start`, not before the
/// input); `-1` where one of them is not such a match.
pub open spec fn block_end(input: Seq<u8>, start: int, ms: Seq<Match>) -> int
    decreases ms.len(),
{
    if ms.len() == 0 {
        start
    } else {
        let e = block_end(input, start, ms.drop_last());
        let m = ms.last();
        let p = e + m.literal_len;
        if e >= start && m.match_len >= 1 && 1 <= m.offset <= p && p + m.match_len <= input.len()
            && agree(input, p - m.offset, p, m.match_len as int) {
            p + m.match_len
        } else {
            -1
        }
    }
}

/// The matches on the path into index `i`, as (index, length, offset), in
/// order.
pub open spec fn path(nodes: Seq<Node>, i: int) -> Seq<(usize, usize, usize)>
    decreases i,
{
    if i <= 0 {
        Seq::empty()
    } else {
        let n = nodes[i];
        let m = n.match_len as int;
        if m == 0 || m > i {
            path(nodes, i - 1)
        } else {
            path(nodes, i - m).push(((i - m) as usize, m as usize, n.offset as usize))
        }
    }
}

/// Where the last match of a path ends.
pub open spec fn path_end(p: Seq<(usize, usize, usize)>) -> int {
    if p.len() == 0 {
        0
    } else {
        p.last().0 + p.last().1
    }
}

/// The sequences a path stands for: each takes the literals from the end
/// of the previous match to its own index.
pub open spec fn path_matches(p: Seq<(usize, usize, usize)>) -> Seq<Match>
    decreases p.len(),
{
    if p.len() == 0 {
        Seq::empty()
    } else {
        let prev = p.drop_last();
        path_matches(prev).push(
            Match {
                literal_len: (p.last().0 - path_end(prev)) as usize,
                match_len: p.last().1,
                offset: p.last().2,
            },
        )
    }
}

/// The path into a reached index of sound nodes is a run of real matches,
/// in order, ending no later than the index.
proof fn lemma_path(input: Seq<u8>, start: int, end: int, nodes: Seq<Node>, i: int)
    requires
        0 <= start <= end <= input.len(),
        end - start <= MAX_SPAN,
        nodes_ok(input, start, nodes, end - start),
        0 <= i <= end - start,
        forall|j: int| 0 <= j <= end - start ==> #[trigger] reached(nodes[j]),
    ensures
        0 <= path_end(path(nodes, i)) <= i,
        path_matches(path(nodes, i)).len() == path(nodes, i).len(),
        block_end(input, start, path_matches(path(nodes, i))) == start + path_end(path(nodes, i)),
    decreases i,
{
    if i > 0 {
        let n = nodes[i];
        let m = n.match_len as int;
        assert(node_ok(input, start, nodes, i));
        if m == 0 || m > i {
            lemma_path(input, start, end, nodes, i - 1);
        } else {
            lemma_path(input, start, end, nodes, i - m);
            let p = path(nodes, i - m);
            let x = ((i - m) as usize, m as usize, n.offset as usize);
            assert(path(nodes, i) == p.push(x));
            assert(p.push(x).drop_last() == p);
            let ms = path_matches(p.push(x));
            assert(ms.drop_last() == path_matches(p));
            assert(ms.last() == Match {
                literal_len: (i - m - path_end(p)) as usize,
                match_len: m as usize,
                offset: n.offset as usize,
            });
        }
    }
}


/// Each match of the path starts no earlier than the one before it ends,
/// and ends within a block.
pub open spec fn path_sorted(p: Seq<(usize, usize, usize)>) -> bool {
    forall|c: int|
        0 <= c < p.len() ==> path_end(p.take(c)) <= (#[trigger] p[c]).0 && p[c].0 + p[c].1 <= MAX_SPAN
}

proof fn lemma_path_order(input: Seq<u8>, start: int, end: int, nodes: Seq<Node>, i: int)
    requires
        0 <= start <= end <= input.len(),
        end - start <= MAX_SPAN,
        nodes_ok(input, start, nodes, end - start),
        0 <= i <= end - start,
        forall|j: int| 0 <= j <= end - start ==> #[trigger] reached(nodes[j]),
    ensures
        path_sorted(path(nodes, i)),
    decreases i,
{
    if i > 0 {
        let n = nodes[i];
        let m = n.match_len as int;
        if m == 0 || m > i {
            lemma_path_order(input, start, end, nodes, i - 1);
        } else {
            lemma_path_order(input, start, end, nodes, i - m);
            lemma_path(input, start, end, nodes, i - m);
            let p = path(nodes, i - m);
            let x = ((i - m) as usize, m as usize, n.offset as usize);
            let q = p.push(x);
            assert(path(nodes, i) == q);
            assert forall|c: int| 0 <= c < q.len() implies path_end(q.take(c)) <= (#[trigger] q[c]).0
                && q[c].0 + q[c].1 <= MAX_SPAN by {
                if c < p.len() {
                    assert(q.take(c) == p.take(c));
                    assert(q[c] == p[c]);
                } else {
                    assert(q.take(c) == p);
                }
            }
        }
    }
}

proof fn lemma_sorted_step(whole: Seq<(usize, usize, usize)>, c: int)
    requires
        0 <= c < whole.len(),
    ensures
        path_matches(whole.take(c + 1)) == path_matches(whole.take(c)).push(
            Match {
                literal_len: (whole[c].0 - path_end(whole.take(c))) as usize,
                match_len: whole[c].1,
                offset: whole[c].2,
            },
        ),
        path_end(whole.take(c + 1)) == whole[c].0 + whole[c].1,
{
    let q = whole.take(c + 1);
    assert(q.drop_last() == whole.take(c));
    assert(q.last() == whole[c]);
}

/// Offers a match `offset` back from block index `index`, reached by
/// `here`, at each length in `covered + 1 ..= min(len, RELAX_LIMIT)`, and
/// at its full `len` past that, relaxing the nodes it reaches.
fn offer(
    nodes: &mut Vec<Node>,
    prices: &Prices,
    index: usize,
    here: Node,
    offset: usize,
    len: usize,
    covered: usize,
    Ghost(input): Ghost<Seq<u8>>,
    Ghost(start): Ghost<int>,
    Ghost(span): Ghost<int>,
)
    requires
        0 <= start,
        start + span <= input.len() <= 0xffff_0000,
        span <= MAX_SPAN,
        nodes_ok(input, start, old(nodes)@, span),
        index < span,
        old(nodes)@[index as int] == here,
        reached(here),
        -price_cap(index as int) <= here.price <= price_cap(index as int),
        here.literal_len <= index,
        2 <= covered < len,
        index + len <= span,
        1 <= offset <= start + index,
        agree(input, start + index - offset, start + index, len as int),
    ensures
        nodes_ok(input, start, final(nodes)@, span),
        forall|k: int| 0 <= k <= span && reached(old(nodes)@[k]) ==> #[trigger] reached(final(nodes)@[k]),
        forall|k: int| 0 <= k <= index ==> #[trigger] final(nodes)@[k] == old(nodes)@[k],
{
    let (value, advanced) = encode_offset(here.repeats, offset as u32, here.literal_len);
    let base = here.price + prices.offset_value(value) + prices.literal_run(0);
    let top = if len < RELAX_LIMIT {
        len
    } else {
        RELAX_LIMIT
    };
    let ghost first = nodes@;
    let mut taken = covered + 1;
    while taken <= top
        invariant
            0 <= start,
            start + span <= input.len() <= 0xffff_0000,
            span <= MAX_SPAN,
            nodes_ok(input, start, nodes@, span),
            index < span,
            nodes@[index as int] == here,
            reached(here),
            -price_cap(index as int) <= here.price <= price_cap(index as int),
            here.price <= base <= here.price + 0x1_ffff_fffe,
            3 <= taken,
            top <= len,
            index + len <= span,
            1 <= offset <= start + index,
            agree(input, start + index - offset, start + index, len as int),
            forall|k: int| 0 <= k <= span && reached(first[k]) ==> #[trigger] reached(nodes@[k]),
            forall|k: int| 0 <= k <= index ==> #[trigger] nodes@[k] == first[k],
        decreases top + 1 - taken,
    {
        self::put(nodes, prices, index, here, offset, taken, base, advanced, Ghost(input), Ghost(start), Ghost(span), Ghost(len as int));
        proof {
            assert forall|k: int| 0 <= k <= span && reached(first[k]) implies #[trigger] reached(nodes@[k]) by {}
        }
        taken = taken + 1;
    }
    if len > RELAX_LIMIT {
        self::put(nodes, prices, index, here, offset, len, base, advanced, Ghost(input), Ghost(start), Ghost(span), Ghost(len as int));
    }
}

/// Relaxes the node a match of `taken` bytes from `index` reaches.
fn put(
    nodes: &mut Vec<Node>,
    prices: &Prices,
    index: usize,
    here: Node,
    offset: usize,
    taken: usize,
    base: i64,
    advanced: [u32; 3],
    Ghost(input): Ghost<Seq<u8>>,
    Ghost(start): Ghost<int>,
    Ghost(span): Ghost<int>,
    Ghost(len): Ghost<int>,
)
    requires
        0 <= start,
        start + span <= input.len() <= 0xffff_0000,
        span <= MAX_SPAN,
        nodes_ok(input, start, old(nodes)@, span),
        index < span,
        old(nodes)@[index as int] == here,
        reached(here),
        -price_cap(index as int) <= here.price <= price_cap(index as int),
        here.price <= base <= here.price + 0x1_ffff_fffe,
        3 <= taken <= len,
        index + len <= span,
        1 <= offset <= start + index,
        agree(input, start + index - offset, start + index, len),
    ensures
        nodes_ok(input, start, final(nodes)@, span),
        forall|k: int| 0 <= k <= span && reached(old(nodes)@[k]) ==> #[trigger] reached(final(nodes)@[k]),
        forall|k: int| 0 <= k <= index ==> #[trigger] final(nodes)@[k] == old(nodes)@[k],
{
    let price = base + prices.match_run(taken);
    let cand = Node {
        price,
        literal_len: 0,
        match_len: taken as u32,
        offset: offset as u32,
        repeats: advanced,
    };
    let j = index + taken;
    proof {
        let p = start + index;
        assert(agree(input, p - offset, p, taken as int)) by {
            assert forall|k: int| 0 <= k < taken implies #[trigger] input[p - offset + k] == input[p + k] by {
                assert(input[(p - offset) + k] == input[p + k]);
            }
        }
        assert(price_cap(j as int) == price_cap(index as int) + taken * 0x3_0000_0000);
        assert(taken * 0x3_0000_0000 >= 0x3_0000_0000) by (nonlinear_arith)
            requires
                taken >= 1,
        ;
        assert(price_cap(index as int) >= 0x3_0000_0000);
        assert(entry_ok(input, start, nodes@, j as int, cand));
    }
    let ghost before = nodes@;
    relax(nodes, j, cand);
    proof {
        lemma_relax(input, start, span, before, j as int, cand, nodes@);
    }
}

/// Parses the block `input[start..end]` into sequences under `prices`:
/// the cheapest path through the block's indices, an edge being one
/// literal or one match (a repeat offset that agrees for at least
/// [`MIN_REPEAT_MATCH`] bytes, or a candidate), each priced against the
/// literal run and repeat offsets of the best path into where it starts.
/// Matches may reach back before `start`, never past `end`. The result
/// reads back as the block: every sequence copies its literals, then bytes
/// that agree with those its offset back, and what its matches leave of
/// the block is its trailing literals.
pub fn parse(
    input: &[u8],
    start: usize,
    end: usize,
    candidates: &Candidates,
    repeats: [usize; 3],
    prices: &Prices,
) -> (r: Vec<Match>)
    requires
        start <= end <= input@.len() <= 0xffff_0000,
        end - start <= MAX_SPAN,
        candidates_ok(*candidates, input@, start as int, end as int),
    ensures
        start <= block_end(input@, start as int, r@) <= end,
{
    let span = end - start;
    let ghost inp = input@;
    let ghost st = start as int;
    let unreached = Node { price: UNREACHED, literal_len: 0, match_len: 0, offset: 0, repeats: [0, 0, 0] };
    let mut nodes: Vec<Node> = vec![unreached; span + 1];
    let first = Node {
        price: prices.literal_run(0),
        literal_len: 0,
        match_len: 0,
        offset: 0,
        repeats: [repeats[0] as u32, repeats[1] as u32, repeats[2] as u32],
    };
    nodes.set(0, first);
    proof {
        assert forall|j: int| 1 <= j <= span implies #[trigger] node_ok(inp, st, nodes@, j) by {
            assert(!reached(nodes@[j]));
        }
    }
    let mut index: usize = 0;
    while index < span
        invariant
            inp == input@,
            st == start,
            span == end - start,
            start <= end <= input@.len() <= 0xffff_0000,
            span <= MAX_SPAN,
            candidates_ok(*candidates, input@, start as int, end as int),
            index <= span,
            nodes_ok(inp, st, nodes@, span as int),
            forall|j: int| 0 <= j <= index ==> #[trigger] reached(nodes@[j]),
        decreases span - index,
    {
        let pos = start + index;
        let here = nodes[index];
        proof {
            if index > 0 {
                assert(node_ok(inp, st, nodes@, index as int));
            }
        }
        let run = here.literal_len as usize;
        let step = prices.literal[input[pos] as usize] as i64 + prices.literal_run(run + 1)
            - prices.literal_run(run);
        let cand = Node {
            price: here.price + step,
            literal_len: here.literal_len + 1,
            match_len: 0,
            offset: 0,
            repeats: here.repeats,
        };
        let ghost before = nodes@;
        proof {
            assert(price_cap(index + 1) == price_cap(index as int) + 0x3_0000_0000);
            assert(entry_ok(inp, st, before, index + 1, cand));
        }
        relax(&mut nodes, index + 1, cand);
        proof {
            lemma_relax(inp, st, span as int, before, index + 1, cand, nodes@);
            assert forall|j: int| 0 <= j <= index + 1 implies #[trigger] reached(nodes@[j]) by {
                if j <= index {
                    assert(reached(before[j]));
                }
            }
        }
        let limit = if span - index < MAX_MATCH {
            span - index
        } else {
            MAX_MATCH
        };
        if limit >= MIN_REPEAT_MATCH && candidates.searched[index] {
            let offsets = repeat_candidates(here.repeats, here.literal_len);
            let mut covered: usize = MIN_REPEAT_MATCH - 1;
            let mut t: usize = 0;
            while t < 3
                invariant
                    inp == input@,
                    st == start,
                    span == end - start,
                    start <= end <= input@.len() <= 0xffff_0000,
                    span <= MAX_SPAN,
                    index < span,
                    pos == start + index,
                    limit <= span - index,
                    nodes_ok(inp, st, nodes@, span as int),
                    forall|j: int| 0 <= j <= index + 1 ==> #[trigger] reached(nodes@[j]),
                    nodes@[index as int] == here,
                    reached(here),
                    -price_cap(index as int) <= here.price <= price_cap(index as int),
                    here.literal_len <= index,
                    2 <= covered,
                decreases 3 - t,
            {
                let offset = offsets[t] as usize;
                if offset != 0 && offset <= pos {
                    let len = common_prefix(input, pos - offset, pos, limit);
                    if len > covered {
                        let ghost b = nodes@;
                        offer(&mut nodes, prices, index, here, offset, len, covered, Ghost(inp), Ghost(st), Ghost(span as int));
                        proof {
                            assert forall|j: int| 0 <= j <= index + 1 implies #[trigger] reached(nodes@[j]) by {
                                assert(reached(b[j]));
                            }
                        }
                        let capped = if len < RELAX_LIMIT {
                            len
                        } else {
                            RELAX_LIMIT
                        };
                        if capped > covered {
                            covered = capped;
                        }
                    }
                }
                t = t + 1;
            }
            let mut covered: usize = MIN_MATCH - 1;
            let mut k = candidates.starts[index] as usize;
            let stop = candidates.starts[index + 1] as usize;
            while k < stop
                invariant
                    inp == input@,
                    st == start,
                    span == end - start,
                    start <= end <= input@.len() <= 0xffff_0000,
                    span <= MAX_SPAN,
                    candidates_ok(*candidates, input@, start as int, end as int),
                    index < span,
                    pos == start + index,
                    stop == candidates.starts@[index + 1],
                    candidates.starts@[index as int] <= k,
                    stop <= candidates.items@.len(),
                    nodes_ok(inp, st, nodes@, span as int),
                    forall|j: int| 0 <= j <= index + 1 ==> #[trigger] reached(nodes@[j]),
                    nodes@[index as int] == here,
                    reached(here),
                    -price_cap(index as int) <= here.price <= price_cap(index as int),
                    here.literal_len <= index,
                    3 <= covered,
                decreases stop - k,
            {
                let (len32, off32) = candidates.items[k];
                proof {
                    assert(candidate_ok(inp, st, end as int, index as int, candidates.items@[k as int]));
                }
                let len = len32 as usize;
                let offset = off32 as usize;
                if len > covered {
                    let ghost b = nodes@;
                    offer(&mut nodes, prices, index, here, offset, len, covered, Ghost(inp), Ghost(st), Ghost(span as int));
                    proof {
                        assert forall|j: int| 0 <= j <= index + 1 implies #[trigger] reached(nodes@[j]) by {
                            assert(reached(b[j]));
                        }
                    }
                    let capped = if len < RELAX_LIMIT {
                        len
                    } else {
                        RELAX_LIMIT
                    };
                    if capped > covered {
                        covered = capped;
                    }
                }
                k = k + 1;
            }
        }
        index = index + 1;
    }
    backtrack(&nodes, Ghost(inp), Ghost(st), Ghost(end as int))
}

/// Walks the path into the last node back to the start and turns it into
/// sequences, in order.
fn backtrack(nodes: &Vec<Node>, Ghost(input): Ghost<Seq<u8>>, Ghost(start): Ghost<int>, Ghost(end): Ghost<int>) -> (r: Vec<Match>)
    requires
        0 <= start <= end <= input.len(),
        end - start <= MAX_SPAN,
        nodes_ok(input, start, nodes@, end - start),
        forall|j: int| 0 <= j <= end - start ==> #[trigger] reached(nodes@[j]),
    ensures
        start <= block_end(input, start, r@) <= end,
{
    let span = nodes.len() - 1;
    let ghost whole = path(nodes@, span as int);
    let mut ends: Vec<(usize, usize, usize)> = Vec::new();
    let mut i = span;
    proof {
        assert(whole == path(nodes@, i as int) + ends@.reverse());
    }
    while i > 0
        invariant
            span == nodes@.len() - 1,
            i <= span,
            whole == path(nodes@, span as int),
            whole == path(nodes@, i as int) + ends@.reverse(),
        decreases i,
    {
        let node = nodes[i];
        let m = node.match_len as usize;
        if m == 0 || m > i {
            i = i - 1;
        } else {
            let ghost old_ends = ends@;
            i = i - m;
            ends.push((i, m, node.offset as usize));
            proof {
                assert(ends@.reverse() == seq![(i, m, node.offset as usize)] + old_ends.reverse());
                assert(path(nodes@, (i + m) as int) == path(nodes@, i as int).push((i, m, node.offset as usize)));
            }
        }
    }
    proof {
        assert(path(nodes@, 0) == Seq::<(usize, usize, usize)>::empty());
        assert(whole == ends@.reverse());
        lemma_path(input, start, end, nodes@, span as int);
        lemma_path_order(input, start, end, nodes@, span as int);
    }
    let mut out: Vec<Match> = Vec::new();
    let mut at: usize = 0;
    let mut k = ends.len();
    while k > 0
        invariant
            whole == ends@.reverse(),
            k <= ends@.len(),
            out@ == path_matches(whole.take((ends@.len() - k) as int)),
            at == path_end(whole.take((ends@.len() - k) as int)),
            path_sorted(whole),
        decreases k,
    {
        let item = ends[k - 1];
        let ghost c = (ends@.len() - k) as int;
        proof {
            assert(whole[c] == item);
            assert(whole.take(c + 1).drop_last() == whole.take(c));
            lemma_sorted_step(whole, c);
        }
        out.push(Match { literal_len: item.0 - at, match_len: item.1, offset: item.2 });
        at = item.0 + item.1;
        k = k - 1;
    }
    proof {
        assert(whole.take(whole.len() as int) == whole);
    }
    out
}

} // verus!
