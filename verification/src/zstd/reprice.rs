//! Repricing a block from a parse of it: how often each literal and each
//! sequence code occurs turns into what it costs on the next pass.
use super::matcher::Match;
use super::optimal::{entropy, entropy_spec, literal_price, offset_code, encode_offset, Prices};
use super::sequences::{is_code, ll_base, ll_extra, ml_base, ml_extra};
use super::weights::count_of;
use vstd::prelude::*;

verus! {

/// Where sequence `k` of `ms` starts in its block.
pub open spec fn run_at(ms: Seq<Match>, k: int) -> int
    decreases k,
{
    if k <= 0 {
        0
    } else {
        run_at(ms, k - 1) + ms[k - 1].literal_len + ms[k - 1].match_len
    }
}

/// The literals of the first `k` sequences of `ms`, in order.
pub open spec fn literals_of(block: Seq<u8>, ms: Seq<Match>, k: int) -> Seq<u8>
    decreases k,
{
    if k <= 0 {
        Seq::empty()
    } else {
        literals_of(block, ms, k - 1) + block.subrange(
            run_at(ms, k - 1),
            run_at(ms, k - 1) + ms[k - 1].literal_len,
        )
    }
}

/// The repeat offsets before sequence `k`, from `repeats` at the start.
pub open spec fn history_at(ms: Seq<Match>, repeats: Seq<u32>, k: int) -> Seq<u32>
    decreases k,
{
    if k <= 0 {
        repeats
    } else {
        offset_code(history_at(ms, repeats, k - 1), ms[k - 1].offset as int, ms[k - 1].literal_len as int).1
    }
}

/// The offset code of sequence `k`: the position of its offset value's top
/// bit.
pub open spec fn of_code_at(ms: Seq<Match>, repeats: Seq<u32>, k: int) -> int {
    super::frame::bit_length(
        offset_code(history_at(ms, repeats, k), ms[k].offset as int, ms[k].literal_len as int).0 as nat,
    ) - 1
}

/// How many of the first `k` sequences have literals-length code `c`.
pub open spec fn ll_count(ms: Seq<Match>, c: int, k: int) -> nat
    decreases k,
{
    if k <= 0 {
        0
    } else {
        ll_count(ms, c, k - 1) + if is_code(ll_base(), ms[k - 1].literal_len as int, c) {
            1nat
        } else {
            0nat
        }
    }
}

/// How many of the first `k` sequences have match-length code `c`.
pub open spec fn ml_count(ms: Seq<Match>, c: int, k: int) -> nat
    decreases k,
{
    if k <= 0 {
        0
    } else {
        ml_count(ms, c, k - 1) + if is_code(ml_base(), ms[k - 1].match_len as int, c) {
            1nat
        } else {
            0nat
        }
    }
}

/// How many of the first `k` sequences have offset code `c`.
pub open spec fn of_count(ms: Seq<Match>, repeats: Seq<u32>, c: int, k: int) -> nat
    decreases k,
{
    if k <= 0 {
        0
    } else {
        of_count(ms, repeats, c, k - 1) + if of_code_at(ms, repeats, k - 1) == c {
            1nat
        } else {
            0nat
        }
    }
}

/// The price of a sequence code seen `count` times out of `total`: its
/// entropy, at least an eighth of a bit.
pub open spec fn symbol_price(count: nat, total: nat) -> nat {
    if entropy_spec(count, total) < 32 {
        32
    } else {
        entropy_spec(count, total)
    }
}

/// `ms` is a parse of `block` that `fit` can reprice: its sequences stay
/// inside the block, every match is at least three bytes and every offset
/// fits the format.
pub open spec fn fits_block(block: Seq<u8>, ms: Seq<Match>) -> bool {
    &&& block.len() <= 0xffff_ffff
    &&& ms.len() <= 0xffff_ffff
    &&& run_at(ms, ms.len() as int) <= block.len()
    &&& forall|j: int|
        0 <= j < ms.len() ==> 3 <= (#[trigger] ms[j]).match_len <= 0xffff_ffff && 1 <= ms[j].offset
            <= 0xffff_0000
}

proof fn lemma_run_grows(ms: Seq<Match>, j: int, k: int)
    requires
        0 <= j <= k <= ms.len(),
    ensures
        run_at(ms, j) <= run_at(ms, k),
    decreases k - j,
{
    if j < k {
        lemma_run_grows(ms, j, k - 1);
    }
}

proof fn lemma_count_prefix(s: Seq<u8>, x: u8, v: int, k: int)
    requires
        0 <= k <= s.len(),
    ensures
        count_of(s.push(x), v, k) == count_of(s, v, k),
    decreases k,
{
    if k > 0 {
        lemma_count_prefix(s, x, v, k - 1);
    }
}

proof fn lemma_code_unique(base: Seq<u32>, v: int, a: int, b: int)
    requires
        forall|i: int, j: int| 0 <= i < j < base.len() ==> base[i] < base[j],
        is_code(base, v, a),
        is_code(base, v, b),
    ensures
        a == b,
{
    if a < b {
        assert(base[a + 1] <= base[b]);
    } else if b < a {
        assert(base[b + 1] <= base[a]);
    }
}

/// Counts the bytes `block[from..to]` into `counts`, which held the
/// counts of `lits`.
fn add_literals(counts: &mut Vec<u32>, block: &[u8], from: usize, to: usize, Ghost(lits): Ghost<Seq<u8>>)
    requires
        from <= to <= block@.len() <= 0xffff_ffff,
        lits.len() <= from,
        old(counts)@.len() == 256,
        forall|v: int| 0 <= v < 256 ==> #[trigger] old(counts)@[v] == count_of(lits, v, lits.len() as int),
    ensures
        final(counts)@.len() == 256,
        forall|v: int|
            0 <= v < 256 ==> #[trigger] final(counts)@[v] == count_of(
                lits + block@.subrange(from as int, to as int),
                v,
                (lits + block@.subrange(from as int, to as int)).len() as int,
            ),
{
    let ghost mut cur = lits;
    let mut t = from;
    proof {
        assert(lits + block@.subrange(from as int, from as int) == lits);
    }
    while t < to
        invariant
            from <= t <= to <= block@.len() <= 0xffff_ffff,
            cur == lits + block@.subrange(from as int, t as int),
            cur.len() <= t,
            counts@.len() == 256,
            forall|v: int| 0 <= v < 256 ==> #[trigger] counts@[v] == count_of(cur, v, cur.len() as int),
        decreases to - t,
    {
        let byte = block[t] as usize;
        proof {
            super::weights::lemma_count_of_bound(cur, byte as int, cur.len() as int);
            assert forall|v: int| 0 <= v < 256 implies #[trigger] count_of(cur.push(block@[t as int]), v, (cur.len() + 1) as int)
                == count_of(cur, v, cur.len() as int) + if block@[t as int] == v { 1nat } else { 0nat } by {
                lemma_count_prefix(cur, block@[t as int], v, cur.len() as int);
            }
        }
        counts.set(byte, counts[byte] + 1);
        proof {
            assert(lits + block@.subrange(from as int, t + 1) == (lits + block@.subrange(from as int, t as int)).push(block@[t as int]));
            cur = cur.push(block@[t as int]);
        }
        t = t + 1;
    }
}

/// How many literals there are: the sum of their counts.
fn lits_len(counts: &Vec<u32>, Ghost(lits): Ghost<Seq<u8>>) -> (r: u32)
    requires
        counts@.len() == 256,
        lits.len() <= 0xffff_ffff,
        forall|v: int| 0 <= v < 256 ==> #[trigger] counts@[v] == count_of(lits, v, lits.len() as int),
    ensures
        r == lits.len(),
{
    let mut total: u64 = 0;
    let mut v: usize = 0;
    while v < 256
        invariant
            counts@.len() == 256,
            v <= 256,
            total == count_below(lits, v as int, lits.len() as int),
            lits.len() <= 0xffff_ffff,
            forall|x: int| 0 <= x < 256 ==> #[trigger] counts@[x] == count_of(lits, x, lits.len() as int),
            total <= lits.len(),
        decreases 256 - v,
    {
        proof {
            lemma_count_below(lits, v as int + 1, lits.len() as int);
        }
        total = total + counts[v] as u64;
        v = v + 1;
    }
    proof {
        lemma_count_all(lits, lits.len() as int);
    }
    total as u32
}

/// How many of the first `k` bytes of `s` are below `v`.
pub open spec fn count_below(s: Seq<u8>, v: int, k: int) -> nat
    decreases v,
{
    if v <= 0 {
        0
    } else {
        count_below(s, v - 1, k) + count_of(s, v - 1, k)
    }
}

proof fn lemma_count_below(s: Seq<u8>, v: int, k: int)
    requires
        0 <= k <= s.len(),
        0 <= v <= 256,
    ensures
        count_below(s, v, k) <= k,
    decreases k,
{
    if k > 0 {
        lemma_count_below(s, v, k - 1);
        lemma_count_below_step(s, v, k);
    } else {
        lemma_count_below_zero(s, v);
    }
}

proof fn lemma_count_below_step(s: Seq<u8>, v: int, k: int)
    requires
        0 < k <= s.len(),
        0 <= v,
    ensures
        count_below(s, v, k) == count_below(s, v, k - 1) + if s[k - 1] < v { 1nat } else { 0nat },
    decreases v,
{
    if v > 0 {
        lemma_count_below_step(s, v - 1, k);
    }
}

proof fn lemma_count_all(s: Seq<u8>, k: int)
    requires
        0 <= k <= s.len(),
    ensures
        count_below(s, 256, k) == k,
    decreases k,
{
    if k > 0 {
        lemma_count_all(s, k - 1);
        lemma_count_below_step(s, 256, k);
    } else {
        lemma_count_below_zero(s, 256);
    }
}

proof fn lemma_count_below_zero(s: Seq<u8>, v: int)
    requires
        0 <= v,
    ensures
        count_below(s, v, 0) == 0,
    decreases v,
{
    if v > 0 {
        lemma_count_below_zero(s, v - 1);
    }
}

impl Prices {
    /// Prices from a parse `ms` of `block`, starting from repeat offsets
    /// `repeats`: literals by their frequency among the parse's literals,
    /// sequence codes by their frequency among its sequences, plus their
    /// extra bits.
    #[verifier::rlimit(100)]
    pub fn fit(block: &[u8], ms: &Vec<Match>, repeats: [usize; 3]) -> (r: Prices)
        requires
            fits_block(block@, ms@),
        ensures
            ({
                let lits = literals_of(block@, ms@, ms@.len() as int) + block@.subrange(
                    run_at(ms@, ms@.len() as int),
                    block@.len() as int,
                );
                forall|b: int|
                    0 <= b < 256 ==> #[trigger] r.literal@[b] == literal_price(
                        count_of(lits, b, lits.len() as int),
                        lits.len(),
                    )
            }),
            forall|c: int|
                0 <= c < 36 ==> #[trigger] r.literal_len@[c] == symbol_price(
                    ll_count(ms@, c, ms@.len() as int),
                    ms@.len(),
                ) + ll_extra()[c] * 256,
            forall|c: int|
                0 <= c < 53 ==> #[trigger] r.match_len@[c] == symbol_price(
                    ml_count(ms@, c, ms@.len() as int),
                    ms@.len(),
                ) + ml_extra()[c] * 256,
            forall|c: int|
                0 <= c < 32 ==> #[trigger] r.offset@[c] == symbol_price(
                    of_count(
                        ms@,
                        seq![repeats[0] as u32, repeats[1] as u32, repeats[2] as u32],
                        c,
                        ms@.len() as int,
                    ),
                    ms@.len(),
                ) + c * 256,
    {
        let ghost h0 = seq![repeats[0] as u32, repeats[1] as u32, repeats[2] as u32];
        let n = ms.len();
        proof {
            super::sequences::lemma_bases_rising();
            lemma_run_grows(ms@, 0, n as int);
        }
        let ll_bases = super::sequences::ll_base_table();
        let ml_bases = super::sequences::ml_base_table();
        let mut lit_counts: Vec<u32> = vec![0u32; 256];
        let mut ll_counts: Vec<u32> = vec![0u32; 36];
        let mut ml_counts: Vec<u32> = vec![0u32; 53];
        let mut of_counts: Vec<u32> = vec![0u32; 32];
        let mut history: [u32; 3] = [repeats[0] as u32, repeats[1] as u32, repeats[2] as u32];
        let mut at: usize = 0;
        let mut k: usize = 0;
        let ghost mut lits: Seq<u8> = Seq::empty();
        while k < n
            invariant
                fits_block(block@, ms@),
                n == ms@.len(),
                k <= n,
                ll_bases@ == ll_base(),
                ml_bases@ == ml_base(),
                forall|i: int, j: int| 0 <= i < j < ll_base().len() ==> ll_base()[i] < ll_base()[j],
                forall|i: int, j: int| 0 <= i < j < ml_base().len() ==> ml_base()[i] < ml_base()[j],
                at == run_at(ms@, k as int),
                run_at(ms@, n as int) <= block@.len(),
                lits == literals_of(block@, ms@, k as int),
                lits.len() <= at,
                history@ == history_at(ms@, h0, k as int),
                lit_counts@.len() == 256,
                ll_counts@.len() == 36,
                ml_counts@.len() == 53,
                of_counts@.len() == 32,
                forall|v: int| 0 <= v < 256 ==> #[trigger] lit_counts@[v] == count_of(lits, v, lits.len() as int),
                forall|c: int| 0 <= c < 36 ==> #[trigger] ll_counts@[c] == ll_count(ms@, c, k as int) && ll_count(ms@, c, k as int) <= k,
                forall|c: int| 0 <= c < 53 ==> #[trigger] ml_counts@[c] == ml_count(ms@, c, k as int) && ml_count(ms@, c, k as int) <= k,
                forall|c: int| 0 <= c < 32 ==> #[trigger] of_counts@[c] == of_count(ms@, h0, c, k as int) && of_count(ms@, h0, c, k as int) <= k,
            decreases n - k,
        {
            let m = ms[k];
            proof {
                lemma_run_grows(ms@, k + 1, n as int);
                assert(3 <= ms@[k as int].match_len);
                assert(m.literal_len <= 0xffff_ffff);
            }
            add_literals(&mut lit_counts, block, at, at + m.literal_len, Ghost(lits));
            proof {
                lits = lits + block@.subrange(at as int, at + m.literal_len);
            }
            let llc = super::sequences::code_of(&ll_bases, m.literal_len as u32) as usize;
            let mlc = super::sequences::code_of(&ml_bases, m.match_len as u32) as usize;
            let (value, next) = encode_offset(history, m.offset as u32, m.literal_len as u32);
            let b = super::frame::bit_len(value as u64);
            proof {
                super::frame::lemma_bit_length(value as nat);
                vstd::arithmetic::power2::lemma2_to64();
                if b > 32 {
                    vstd::arithmetic::power2::lemma_pow2_strictly_increases(32, (b - 1) as nat);
                }
            }
            let ofc = (b - 1) as usize;
            proof {
                assert(ll_counts@[llc as int] == ll_count(ms@, llc as int, k as int));
                assert(ml_counts@[mlc as int] == ml_count(ms@, mlc as int, k as int));
                assert(of_counts@[ofc as int] == of_count(ms@, h0, ofc as int, k as int));
            }
            let ghost llc0 = ll_counts@;
            let ghost mlc0 = ml_counts@;
            let ghost ofc0 = of_counts@;
            ll_counts.set(llc, ll_counts[llc] + 1);
            ml_counts.set(mlc, ml_counts[mlc] + 1);
            of_counts.set(ofc, of_counts[ofc] + 1);
            proof {
                assert(lits == literals_of(block@, ms@, k + 1));
                assert forall|c: int| 0 <= c < 36 implies #[trigger] ll_counts@[c] == ll_count(ms@, c, k + 1) && ll_count(ms@, c, k + 1) <= k + 1 by {
                    assert(llc0[c] == ll_count(ms@, c, k as int));
                    if is_code(ll_base(), ms@[k as int].literal_len as int, c) {
                        lemma_code_unique(ll_base(), ms@[k as int].literal_len as int, c, llc as int);
                    }
                }
                assert forall|c: int| 0 <= c < 53 implies #[trigger] ml_counts@[c] == ml_count(ms@, c, k + 1) && ml_count(ms@, c, k + 1) <= k + 1 by {
                    assert(mlc0[c] == ml_count(ms@, c, k as int));
                    if is_code(ml_base(), ms@[k as int].match_len as int, c) {
                        lemma_code_unique(ml_base(), ms@[k as int].match_len as int, c, mlc as int);
                    }
                }
                assert(of_code_at(ms@, h0, k as int) == ofc);
                assert forall|c: int| 0 <= c < 32 implies #[trigger] of_counts@[c] == of_count(ms@, h0, c, k + 1) && of_count(ms@, h0, c, k + 1) <= k + 1 by {
                    assert(ofc0[c] == of_count(ms@, h0, c, k as int));
                }
            }
            history = next;
            at = at + m.literal_len + m.match_len;
            k = k + 1;
        }
        add_literals(&mut lit_counts, block, at, block.len(), Ghost(lits));
        proof {
            lits = lits + block@.subrange(at as int, block@.len() as int);
        }
        let total = lits_len(&lit_counts, Ghost(lits));
        let mut r = Prices { literal: [0; 256], literal_len: [0; 36], match_len: [0; 53], offset: [0; 32] };
        let mut v: usize = 0;
        while v < 256
            invariant
                n == ms@.len(),
                ll_counts@.len() == 36,
                ml_counts@.len() == 53,
                of_counts@.len() == 32,
                forall|c: int| 0 <= c < 36 ==> #[trigger] ll_counts@[c] == ll_count(ms@, c, n as int) && ll_count(ms@, c, n as int) <= n,
                forall|c: int| 0 <= c < 53 ==> #[trigger] ml_counts@[c] == ml_count(ms@, c, n as int) && ml_count(ms@, c, n as int) <= n,
                forall|c: int| 0 <= c < 32 ==> #[trigger] of_counts@[c] == of_count(ms@, h0, c, n as int) && of_count(ms@, h0, c, n as int) <= n,
                lit_counts@.len() == 256,
                total == lits.len(),
                forall|x: int| 0 <= x < 256 ==> #[trigger] lit_counts@[x] == count_of(lits, x, lits.len() as int),
                v <= 256,
                forall|x: int| 0 <= x < v ==> #[trigger] r.literal@[x] == literal_price(
                    count_of(lits, x, lits.len() as int),
                    lits.len(),
                ),
            decreases 256 - v,
        {
            let e = entropy(lit_counts[v], total);
            let price = if e < 256 {
                256
            } else if e > 11 * 256 {
                11 * 256
            } else {
                e
            };
            r.literal[v] = price;
            v = v + 1;
        }
        proof {
            super::sequences::lemma_tables_fit();
        }
        let ll_extra_t = super::sequences::ll_extra_table();
        let ml_extra_t = super::sequences::ml_extra_table();
        let ghost lit = r.literal@;
        let seqs = n as u32;
        let mut c: usize = 0;
        while c < 53
            invariant
                ll_extra_t@ == ll_extra(),
                ml_extra_t@ == ml_extra(),
                seqs == n,
                n == ms@.len(),
                r.literal@ == lit,
                ll_counts@.len() == 36,
                ml_counts@.len() == 53,
                of_counts@.len() == 32,
                forall|c: int| 0 <= c < 36 ==> #[trigger] ll_counts@[c] == ll_count(ms@, c, n as int) && ll_count(ms@, c, n as int) <= n,
                forall|c: int| 0 <= c < 53 ==> #[trigger] ml_counts@[c] == ml_count(ms@, c, n as int) && ml_count(ms@, c, n as int) <= n,
                forall|c: int| 0 <= c < 32 ==> #[trigger] of_counts@[c] == of_count(ms@, h0, c, n as int) && of_count(ms@, h0, c, n as int) <= n,
                c <= 53,
                forall|k: int| 0 <= k < c && k < 36 ==> #[trigger] r.literal_len@[k] == symbol_price(
                    ll_count(ms@, k, n as int),
                    n as nat,
                ) + ll_extra()[k] * 256,
                forall|k: int| 0 <= k < c ==> #[trigger] r.match_len@[k] == symbol_price(
                    ml_count(ms@, k, n as int),
                    n as nat,
                ) + ml_extra()[k] * 256,
                forall|k: int| 0 <= k < c && k < 32 ==> #[trigger] r.offset@[k] == symbol_price(
                    of_count(ms@, h0, k, n as int),
                    n as nat,
                ) + k * 256,
            decreases 53 - c,
        {
            if c < 36 {
                let e = entropy(ll_counts[c], seqs);
                let p = if e < 32 {
                    32
                } else {
                    e
                };
                r.literal_len[c] = p + ll_extra_t[c] * 256;
            }
            let e = entropy(ml_counts[c], seqs);
            let p = if e < 32 {
                32
            } else {
                e
            };
            r.match_len[c] = p + ml_extra_t[c] * 256;
            if c < 32 {
                let e = entropy(of_counts[c], seqs);
                let p = if e < 32 {
                    32
                } else {
                    e
                };
                r.offset[c] = p + (c as u32) * 256;
            }
            c = c + 1;
        }
        r
    }

}

} // verus!
