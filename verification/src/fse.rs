//! Finite State Entropy tables against a fixed normalized distribution
//! (RFC 8478, section 4.1): the decoding table, and the encoding steps that
//! run it backwards. The cells carrying one symbol have
//! `[baseline, baseline + 2^bits)` ranges that cover the whole state space,
//! so for any state the decoder should move to there is a cell it can have
//! come from, and the bits to write are the distance from that cell's
//! baseline.

use vstd::arithmetic::power2::pow2;
use vstd::prelude::*;

verus! {

/// Accuracy log of the predefined literals-length table.
pub const LL_LOG: u32 = 6;

/// Accuracy log of the predefined match-length table.
pub const ML_LOG: u32 = 6;

/// Accuracy log of the predefined offset-code table.
pub const OF_LOG: u32 = 5;

/// The largest offset code the predefined offset table can carry.
pub const OF_MAX_CODE: u32 = 28;

/// Literals-length default distribution (RFC 8478, section 3.1.1.3.2.2.1).
pub open spec fn ll_dist() -> Seq<i16> {
    seq![
        4i16, 3, 2, 2, 2, 2, 2, 2, 2, 2, 2, 2, 2, 1, 1, 1, 2, 2, 2, 2, 2, 2, 2, 2, 2, 3, 2, 1, 1, 1,
        1, 1, -1i16, -1i16, -1i16, -1i16,
    ]
}

/// Match-length default distribution (RFC 8478, section 3.1.1.3.2.2.2).
pub open spec fn ml_dist() -> Seq<i16> {
    seq![
        1i16, 4, 3, 2, 2, 2, 2, 2, 2, 1, 1, 1, 1, 1, 1, 1, 1, 1, 1, 1, 1, 1, 1, 1, 1, 1, 1, 1, 1, 1,
        1, 1, 1, 1, 1, 1, 1, 1, 1, 1, 1, 1, 1, 1, 1, 1, -1i16, -1i16, -1i16, -1i16, -1i16, -1i16, -1i16,
    ]
}

/// Offset-code default distribution (RFC 8478, section 3.1.1.3.2.2.3).
pub open spec fn of_dist() -> Seq<i16> {
    seq![
        1i16, 1, 1, 1, 1, 1, 2, 2, 2, 1, 1, 1, 1, 1, 1, 1, 1, 1, 1, 1, 1, 1, 1, 1, -1i16, -1i16, -1i16, -1i16,
        -1i16,
    ]
}

#[verifier::rlimit(100)]
proof fn lemma_ll_sum()
    ensures
        count_neg(ll_dist(), 36) + sum_pos(ll_dist(), 36) == 64,
{
    reveal_with_fuel(count_neg, 37);
    reveal_with_fuel(sum_pos, 37);
}

proof fn lemma_ll_entries()
    ensures
        forall|i: int| 0 <= i < 36 ==> #[trigger] ll_dist()[i] >= -1 && ll_dist()[i] != 0,
{
    let d = ll_dist();
    assert forall|i: int| 0 <= i < 36 implies #[trigger] d[i] >= -1 && d[i] != 0 by {
        assert(0 <= i < 36);
    }
}

#[verifier::rlimit(100)]
proof fn lemma_ml_sum()
    ensures
        count_neg(ml_dist(), 53) + sum_pos(ml_dist(), 53) == 64,
{
    reveal_with_fuel(count_neg, 54);
    reveal_with_fuel(sum_pos, 54);
}

proof fn lemma_ml_entries()
    ensures
        forall|i: int| 0 <= i < 53 ==> #[trigger] ml_dist()[i] >= -1 && ml_dist()[i] != 0,
{
    let d = ml_dist();
    assert forall|i: int| 0 <= i < 53 implies #[trigger] d[i] >= -1 && d[i] != 0 by {
        assert(0 <= i < 53);
    }
}

#[verifier::rlimit(100)]
proof fn lemma_of_sum()
    ensures
        count_neg(of_dist(), 29) + sum_pos(of_dist(), 29) == 32,
{
    reveal_with_fuel(count_neg, 30);
    reveal_with_fuel(sum_pos, 30);
}

proof fn lemma_of_entries()
    ensures
        forall|i: int| 0 <= i < 29 ==> #[trigger] of_dist()[i] >= -1 && of_dist()[i] != 0,
{
    let d = of_dist();
    assert forall|i: int| 0 <= i < 29 implies #[trigger] d[i] >= -1 && d[i] != 0 by {
        assert(0 <= i < 29);
    }
}

/// The three default distributions are normalized to their accuracy logs.
pub proof fn lemma_defaults_normalized()
    ensures
        normalized(ll_dist(), LL_LOG),
        normalized(ml_dist(), ML_LOG),
        normalized(of_dist(), OF_LOG),
        forall|i: int| 0 <= i < 36 ==> #[trigger] ll_dist()[i] != 0,
        forall|i: int| 0 <= i < 53 ==> #[trigger] ml_dist()[i] != 0,
        forall|i: int| 0 <= i < 29 ==> #[trigger] of_dist()[i] != 0,
{
    vstd::arithmetic::power2::lemma2_to64();
    lemma_ll_sum();
    lemma_ml_sum();
    lemma_of_sum();
    lemma_ll_entries();
    lemma_ml_entries();
    lemma_of_entries();
}

/// Literals-length default distribution (RFC 8478, section 3.1.1.3.2.2.1).
pub fn ll_default() -> (r: Vec<i16>)
    ensures
        r@ == ll_dist(),
        normalized(r@, LL_LOG),
        forall|i: int| 0 <= i < r@.len() ==> #[trigger] r@[i] != 0,
{
    proof {
        lemma_defaults_normalized();
    }
    vec![
        4, 3, 2, 2, 2, 2, 2, 2, 2, 2, 2, 2, 2, 1, 1, 1, 2, 2, 2, 2, 2, 2, 2, 2, 2, 3, 2, 1, 1,
        1, 1, 1, -1, -1, -1, -1,
    ]
}

/// Match-length default distribution (RFC 8478, section 3.1.1.3.2.2.2).
pub fn ml_default() -> (r: Vec<i16>)
    ensures
        r@ == ml_dist(),
        normalized(r@, ML_LOG),
        forall|i: int| 0 <= i < r@.len() ==> #[trigger] r@[i] != 0,
{
    proof {
        lemma_defaults_normalized();
    }
    vec![
        1, 4, 3, 2, 2, 2, 2, 2, 2, 1, 1, 1, 1, 1, 1, 1, 1, 1, 1, 1, 1, 1, 1, 1, 1, 1, 1, 1, 1,
        1, 1, 1, 1, 1, 1, 1, 1, 1, 1, 1, 1, 1, 1, 1, 1, 1, -1, -1, -1, -1, -1, -1, -1,
    ]
}

/// Offset-code default distribution (RFC 8478, section 3.1.1.3.2.2.3).
pub fn of_default() -> (r: Vec<i16>)
    ensures
        r@ == of_dist(),
        normalized(r@, OF_LOG),
        forall|i: int| 0 <= i < r@.len() ==> #[trigger] r@[i] != 0,
{
    proof {
        lemma_defaults_normalized();
    }
    vec![
        1, 1, 1, 1, 1, 1, 2, 2, 2, 1, 1, 1, 1, 1, 1, 1, 1, 1, 1, 1, 1, 1, 1, 1, -1, -1, -1, -1,
        -1,
    ]
}

/// One cell of the decoding table.
#[derive(Debug, Clone, Copy, PartialEq, Eq, Structural)]
pub struct Cell {
    /// The symbol the cell decodes to.
    pub symbol: u16,
    /// How many bits the decoder reads after it.
    pub bits: u32,
    /// The state the bits are added to.
    pub baseline: u16,
}

/// One step of the encoder: where the decoder came from, and how to say so.
#[derive(Debug, Clone, Copy, PartialEq, Eq, Structural)]
pub struct Step {
    /// State the decoder must hold to emit this symbol.
    pub state: u16,
    /// Baseline to subtract from the target state to get the bits to write.
    pub baseline: u16,
    /// How many bits that difference occupies.
    pub bits: u32,
}

/// How many symbols of `d` before position `k` are "less than one" (`-1`).
pub open spec fn count_neg(d: Seq<i16>, k: int) -> nat
    decreases k,
{
    if k <= 0 {
        0
    } else {
        count_neg(d, k - 1) + if d[k - 1] < 0 {
            1nat
        } else {
            0nat
        }
    }
}

/// The total of the positive cell counts of `d` before position `k`.
pub open spec fn sum_pos(d: Seq<i16>, k: int) -> nat
    decreases k,
{
    if k <= 0 {
        0
    } else {
        sum_pos(d, k - 1) + if d[k - 1] > 0 {
            d[k - 1] as nat
        } else {
            0nat
        }
    }
}

/// `d` is a distribution normalized to `2^log` cells: every entry is a
/// cell count or `-1` ("less than one", still one cell), they fill the
/// table exactly, and there are at most 2^16 symbols.
pub open spec fn normalized(d: Seq<i16>, log: u32) -> bool {
    &&& 5 <= log <= 15
    &&& 1 <= d.len() <= 0x1_0000
    &&& forall|i: int| 0 <= i < d.len() ==> #[trigger] d[i] >= -1
    &&& count_neg(d, d.len() as int) + sum_pos(d, d.len() as int) == pow2(log as nat)
}

/// The cell's range of target states contains `t`.
pub open spec fn covers(c: Cell, t: int) -> bool {
    c.baseline <= t < c.baseline + pow2(c.bits as nat)
}

/// Some cell of the table decodes to `s`.
pub open spec fn has_cell(table: Seq<Cell>, s: int) -> bool {
    exists|st: int| 0 <= st < table.len() && #[trigger] table[st].symbol == s
}

/// Some cell decoding to `s` has `t` in its range.
pub open spec fn covered(table: Seq<Cell>, s: int, t: int) -> bool {
    exists|st: int| 0 <= st < table.len() && #[trigger] table[st].symbol == s && covers(table[st], t)
}

/// Some state of the spread holds `q`.
pub open spec fn occurs(symbol_of: Seq<u16>, q: int) -> bool {
    exists|st: int| 0 <= st < symbol_of.len() && #[trigger] symbol_of[st] == q
}

/// A state the spread gave to `q` has a cell of `q` whose range holds `t`.
pub open spec fn covered_by(table: Seq<Cell>, symbol_of: Seq<u16>, q: int, t: int) -> bool {
    exists|st: int|
        0 <= st < table.len() && symbol_of[st] == q && #[trigger] table[st].symbol == q && covers(
            table[st],
            t,
        )
}

/// A decoding table for `n` symbols with accuracy `log`: `2^log` cells,
/// each naming a symbol and a range inside the state space, and for every
/// symbol that has cells, their ranges cover every state.
pub open spec fn table_ok(table: Seq<Cell>, n: nat, log: nat) -> bool {
    &&& table.len() == pow2(log)
    &&& forall|st: int|
        0 <= st < table.len() ==> {
            &&& (#[trigger] table[st]).symbol < n
            &&& table[st].bits <= log
            &&& table[st].baseline + pow2(table[st].bits as nat) <= pow2(log)
        }
    &&& forall|s: int, t: int|
        0 <= t < pow2(log) && #[trigger] has_cell(table, s) ==> #[trigger] covered(table, s, t)
}

/// `count_neg` and `sum_pos` only grow, and the first stays below the
/// position.
pub proof fn lemma_counts_grow(d: Seq<i16>, j: int, k: int)
    requires
        0 <= j <= k <= d.len(),
    ensures
        count_neg(d, j) <= count_neg(d, k),
        sum_pos(d, j) <= sum_pos(d, k),
    decreases k - j,
{
    if j < k {
        lemma_counts_grow(d, j, k - 1);
    }
}

/// Some cell at `lo` or above holds `t`.
pub open spec fn held_from(symbol_of: Seq<u16>, t: int, lo: int) -> bool {
    exists|st: int| lo <= st < symbol_of.len() && #[trigger] symbol_of[st] == t
}

/// One of the first `j` steps of the walk landed below `bound` on a cell
/// that holds `t`.
pub open spec fn placed(symbol_of: Seq<u16>, t: int, j: int, stride: int, size: int, bound: int) -> bool {
    exists|i: int| 0 <= i < j && walk(i, stride, size) < bound && #[trigger] symbol_of[walk(i, stride, size)] == t
}

/// Where the spread stands after `i` steps of `stride` round a table of
/// `size` cells.
pub open spec fn walk(i: int, stride: int, size: int) -> int {
    (i * stride) % size
}

/// An odd multiple of a number below `2^m` is not a multiple of `2^m`.
proof fn lemma_odd_multiple(d: int, stride: int, m: nat)
    requires
        0 < d < pow2(m),
        stride > 0,
        stride % 2 == 1,
    ensures
        (d * stride) % (pow2(m) as int) != 0,
    decreases m,
{
    vstd::arithmetic::power2::lemma2_to64();
    if m > 0 {
        vstd::arithmetic::power2::lemma_pow2_unfold(m);
        let half = pow2((m - 1) as nat) as int;
        vstd::arithmetic::power2::lemma_pow2_pos((m - 1) as nat);
        if d % 2 == 1 {
            assert((d * stride) % 2 == 1) by {
                vstd::arithmetic::div_mod::lemma_fundamental_div_mod(d, 2);
                vstd::arithmetic::div_mod::lemma_fundamental_div_mod(stride, 2);
                let a = d / 2;
                let b = stride / 2;
                assert(d * stride == 2 * (2 * a * b + a + b) + 1) by (nonlinear_arith)
                    requires
                        d == 2 * a + 1,
                        stride == 2 * b + 1,
                ;
                vstd::arithmetic::div_mod::lemma_fundamental_div_mod_converse(
                    d * stride,
                    2,
                    2 * a * b + a + b,
                    1,
                );
            }
            vstd::arithmetic::div_mod::lemma_mod_mod(d * stride, 2, half);
        } else {
            let e = d / 2;
            vstd::arithmetic::div_mod::lemma_fundamental_div_mod(d, 2);
            lemma_odd_multiple(e, stride, (m - 1) as nat);
            let x = e * stride;
            vstd::arithmetic::div_mod::lemma_fundamental_div_mod(x, half);
            let q = x / half;
            let r = x % half;
            assert(d * stride == (2 * half) * q + 2 * r) by (nonlinear_arith)
                requires
                    d == 2 * e,
                    x == e * stride,
                    x == half * q + r,
            ;
            vstd::arithmetic::div_mod::lemma_fundamental_div_mod_converse(
                d * stride,
                2 * half,
                q,
                2 * r,
            );
        }
    }
}

/// Within one round of a table whose size is a power of two, an odd stride
/// never returns to a position.
pub proof fn lemma_walk_injective(a: int, b: int, stride: int, log: nat)
    requires
        0 <= a < b < pow2(log),
        stride > 0,
        stride % 2 == 1,
    ensures
        walk(a, stride, pow2(log) as int) != walk(b, stride, pow2(log) as int),
{
    let size = pow2(log) as int;
    lemma_odd_multiple(b - a, stride, log);
    assert((b - a) * stride == b * stride - a * stride) by (nonlinear_arith);
    vstd::arithmetic::div_mod::lemma_mod_equivalence(b * stride, a * stride, size);
}

/// One more step of the walk.
pub proof fn lemma_walk_step(j: int, stride: int, size: int)
    requires
        0 <= j,
        0 < stride < size,
    ensures
        walk(j + 1, stride, size) == (walk(j, stride, size) + stride) % size,
        0 <= walk(j, stride, size) < size,
{
    assert((j + 1) * stride == j * stride + stride) by (nonlinear_arith);
    vstd::arithmetic::div_mod::lemma_add_mod_noop(j * stride, stride, size);
    vstd::arithmetic::div_mod::lemma_small_mod(stride as nat, size as nat);
    assert(j * stride >= 0) by (nonlinear_arith)
        requires
            j >= 0,
            stride > 0,
    ;
    vstd::arithmetic::div_mod::lemma_mod_pos_bound(j * stride, size);
}

/// How many of the first `j` steps land below `bound`.
pub open spec fn low_count(j: int, stride: int, size: int, bound: int) -> nat
    decreases j,
{
    if j <= 0 {
        0
    } else {
        low_count(j - 1, stride, size, bound) + if walk(j - 1, stride, size) < bound {
            1nat
        } else {
            0nat
        }
    }
}

/// The positions of the first `j` steps that land at or above `bound`.
pub open spec fn high_set(j: int, stride: int, size: int, bound: int) -> Set<int>
    decreases j,
{
    if j <= 0 {
        Set::empty()
    } else if walk(j - 1, stride, size) >= bound {
        high_set(j - 1, stride, size, bound).insert(walk(j - 1, stride, size))
    } else {
        high_set(j - 1, stride, size, bound)
    }
}

/// The positions of the first `j` steps that land below `bound`.
pub open spec fn low_set(j: int, stride: int, size: int, bound: int) -> Set<int>
    decreases j,
{
    if j <= 0 {
        Set::empty()
    } else if walk(j - 1, stride, size) < bound {
        low_set(j - 1, stride, size, bound).insert(walk(j - 1, stride, size))
    } else {
        low_set(j - 1, stride, size, bound)
    }
}

proof fn lemma_walk_sets(j: int, stride: int, log: nat, bound: int)
    requires
        0 <= j <= pow2(log),
        0 < stride < pow2(log),
        stride % 2 == 1,
        0 <= bound <= pow2(log),
    ensures
        high_set(j, stride, pow2(log) as int, bound).finite(),
        low_set(j, stride, pow2(log) as int, bound).finite(),
        high_set(j, stride, pow2(log) as int, bound).len() + low_count(j, stride, pow2(log) as int, bound) == j,
        low_set(j, stride, pow2(log) as int, bound).len() == low_count(j, stride, pow2(log) as int, bound),
        high_set(j, stride, pow2(log) as int, bound).subset_of(vstd::set_lib::set_int_range(bound, pow2(log) as int)),
        low_set(j, stride, pow2(log) as int, bound).subset_of(vstd::set_lib::set_int_range(0, bound)),
        forall|x: int| #[trigger] high_set(j, stride, pow2(log) as int, bound).contains(x) ==> exists|i: int|
            0 <= i < j && walk(i, stride, pow2(log) as int) == x,
        forall|x: int| #[trigger] low_set(j, stride, pow2(log) as int, bound).contains(x) ==> exists|i: int|
            0 <= i < j && walk(i, stride, pow2(log) as int) == x,
    decreases j,
{
    let size = pow2(log) as int;
    if j > 0 {
        lemma_walk_sets(j - 1, stride, log, bound);
        let w = walk(j - 1, stride, size);
        lemma_walk_step(j - 1, stride, size);
        assert forall|i: int| 0 <= i < j - 1 implies walk(i, stride, size) != w by {
            lemma_walk_injective(i, j - 1, stride, log);
        }
        let hs = high_set(j - 1, stride, size, bound);
        let ls = low_set(j - 1, stride, size, bound);
        if w >= bound {
            assert(!hs.contains(w));
        } else {
            assert(!ls.contains(w));
        }
    } else {
        assert(high_set(j, stride, size, bound) == Set::<int>::empty());
        assert(low_set(j, stride, size, bound) == Set::<int>::empty());
    }
}

/// In one round, the walk lands below `bound` at most `bound` times and at
/// or above it at most `size - bound` times; a full round lands below it
/// exactly `bound` times.
pub proof fn lemma_walk_counts(j: int, stride: int, log: nat, bound: int)
    requires
        0 <= j <= pow2(log),
        0 < stride < pow2(log),
        stride % 2 == 1,
        0 <= bound <= pow2(log),
    ensures
        low_count(j, stride, pow2(log) as int, bound) <= bound,
        j - low_count(j, stride, pow2(log) as int, bound) <= pow2(log) - bound,
        low_count(pow2(log) as int, stride, pow2(log) as int, bound) == bound,
{
    let size = pow2(log) as int;
    lemma_walk_sets(j, stride, log, bound);
    lemma_walk_sets(size, stride, log, bound);
    vstd::set_lib::lemma_int_range(bound, size);
    vstd::set_lib::lemma_int_range(0, bound);
    vstd::set_lib::lemma_len_subset(high_set(j, stride, size, bound), vstd::set_lib::set_int_range(bound, size));
    vstd::set_lib::lemma_len_subset(low_set(j, stride, size, bound), vstd::set_lib::set_int_range(0, bound));
    vstd::set_lib::lemma_len_subset(high_set(size, stride, size, bound), vstd::set_lib::set_int_range(bound, size));
    vstd::set_lib::lemma_len_subset(low_set(size, stride, size, bound), vstd::set_lib::set_int_range(0, bound));
}

/// The table of `size` states once the "less than one" symbols among the
/// first `k` have each taken one cell from the end, retreating.
pub open spec fn neg_spread(d: Seq<i16>, k: int, size: nat) -> Seq<u16>
    decreases k,
{
    if k <= 0 {
        Seq::new(size, |i: int| 0u16)
    } else {
        let t = neg_spread(d, k - 1, size);
        if d[k - 1] < 0 {
            t.update(size - count_neg(d, k), (k - 1) as u16)
        } else {
            t
        }
    }
}

/// The spread's step round a table of `size` states.
pub open spec fn spread_stride(size: nat) -> int {
    (size / 2 + size / 8 + 3) as int
}

/// The next position of the spread after `pos`: steps of `stride` round
/// the table until one lands below `bound`, giving up after `fuel` steps.
pub open spec fn advance(pos: int, stride: int, size: int, bound: int, fuel: nat) -> int
    decreases fuel,
{
    let next = (pos + stride) % size;
    if next < bound || fuel <= 1 {
        next
    } else {
        advance(next, stride, size, bound, (fuel - 1) as nat)
    }
}

/// The table and position once `c` cells of symbol `s` are placed from
/// `start`, each at the position, which then advances.
pub open spec fn place_cells(start: (Seq<u16>, int), s: int, c: int, size: nat, bound: int) -> (
    Seq<u16>,
    int,
)
    decreases c,
{
    if c <= 0 {
        start
    } else {
        let prev = place_cells(start, s, c - 1, size, bound);
        (
            prev.0.update(prev.1, s as u16),
            advance(prev.1, spread_stride(size), size as int, bound, size),
        )
    }
}

/// The table and position once the symbols below `s` have placed their
/// cells, over the table the "less than one" symbols left.
pub open spec fn place_symbols(d: Seq<i16>, s: int, size: nat) -> (Seq<u16>, int)
    decreases s,
{
    if s <= 0 {
        (neg_spread(d, d.len() as int, size), 0)
    } else {
        let p = d[s - 1];
        place_cells(
            place_symbols(d, s - 1, size),
            s - 1,
            if p > 0 {
                p as int
            } else {
                0
            },
            size,
            size - count_neg(d, d.len() as int),
        )
    }
}

/// The symbol of each state, as RFC 8478 (section 4.1.1) spreads `d` over
/// `2^log` states.
pub open spec fn spread(d: Seq<i16>, log: u32) -> Seq<u16> {
    place_symbols(d, d.len() as int, pow2(log as nat)).0
}

/// How many of the first `k` states hold `q`.
pub open spec fn sym_count(so: Seq<u16>, q: int, k: int) -> nat
    decreases k,
{
    if k <= 0 {
        0
    } else {
        sym_count(so, q, k - 1) + if so[k - 1] == q {
            1nat
        } else {
            0nat
        }
    }
}

/// The states among the first `k` that hold `q`, in increasing order.
pub open spec fn positions(so: Seq<u16>, q: int, k: int) -> Seq<u16>
    decreases k,
{
    if k <= 0 {
        Seq::empty()
    } else {
        let p = positions(so, q, k - 1);
        if so[k - 1] == q {
            p.push((k - 1) as u16)
        } else {
            p
        }
    }
}

/// The exponent of the smallest power of two no smaller than `c`.
pub open spec fn share_log(c: nat) -> nat {
    choose|k: nat| c <= pow2(k) && pow2(k) < 2 * c
}

/// The cell of state `st` once the symbols are spread as `so`: its symbol
/// `q` holds `c` states, which share the state space in
/// `c.next_power_of_two()` equal parts, the lowest `w` of its states taking
/// two parts (one bit more), with baselines running upwards from its first
/// single-part state and wrapping.
pub open spec fn cell_of(so: Seq<u16>, log: nat, st: int) -> Cell {
    let q = so[st] as int;
    let c = sym_count(so, q, so.len() as int) as int;
    let tz = share_log(c as nat);
    let w = pow2(tz) - c;
    let nb = (log - tz) as nat;
    let r = sym_count(so, q, st) as int;
    let j = if r >= w {
        r - w
    } else {
        r + c - w
    };
    cell_at(q, c, w, nb, j)
}

/// The decoding table RFC 8478 (section 4.1.1) builds for `d` at accuracy
/// `log`.
pub open spec fn fse_table(d: Seq<i16>, log: u32) -> Seq<Cell> {
    let so = spread(d, log);
    Seq::new(pow2(log as nat), |st: int| cell_of(so, log as nat, st))
}

/// The states of `symbol_of` holding `s`, in increasing order.
pub fn states_of(symbol_of: &Vec<u16>, s: u16) -> (r: Vec<u16>)
    requires
        symbol_of@.len() <= 0x1_0000,
    ensures
        forall|i: int| 0 <= i < r@.len() ==> #[trigger] r@[i] < symbol_of@.len() && symbol_of@[r@[i] as int] == s,
        forall|i: int, j: int| 0 <= i < j < r@.len() ==> r@[i] < r@[j],
        forall|st: int| 0 <= st < symbol_of@.len() && #[trigger] symbol_of@[st] == s ==> exists|i: int|
            0 <= i < r@.len() && r@[i] == st,
        r@.len() <= symbol_of@.len(),
        r@ == positions(symbol_of@, s as int, symbol_of@.len() as int),
{
    let mut out: Vec<u16> = Vec::new();
    let mut st: usize = 0;
    while st < symbol_of.len()
        invariant
            out@ == positions(symbol_of@, s as int, st as int),
            st <= symbol_of@.len() <= 0x1_0000,
            out@.len() <= st,
            forall|i: int| 0 <= i < out@.len() ==> #[trigger] out@[i] < st && symbol_of@[out@[i] as int] == s,
            forall|i: int, j: int| 0 <= i < j < out@.len() ==> out@[i] < out@[j],
            forall|q: int| 0 <= q < st && #[trigger] symbol_of@[q] == s ==> exists|i: int|
                0 <= i < out@.len() && out@[i] == q,
        decreases symbol_of@.len() - st,
    {
        if symbol_of[st] == s {
            let ghost before = out@;
            out.push(st as u16);
            proof {
                assert forall|q: int| 0 <= q < st + 1 && #[trigger] symbol_of@[q] == s implies exists|i: int|
                    0 <= i < out@.len() && out@[i] == q by {
                    if q < st {
                        let i = choose|i: int| 0 <= i < before.len() && before[i] == q;
                        assert(out@[i] == q);
                    } else {
                        assert(out@[before.len() as int] == q);
                    }
                }
            }
        }
        st = st + 1;
    }
    out
}

/// The positions of `q` number as many as its states, and each state of
/// `q` stands at the index that counts the earlier ones.
pub proof fn lemma_positions(so: Seq<u16>, q: int, k: int)
    requires
        0 <= k <= so.len() <= 0x1_0000,
    ensures
        positions(so, q, k).len() == sym_count(so, q, k),
        forall|st: int|
            0 <= st < k && so[st] == q ==> #[trigger] positions(so, q, k)[sym_count(so, q, st) as int]
                == st,
    decreases k,
{
    if k > 0 {
        lemma_positions(so, q, k - 1);
        assert forall|st: int|
            0 <= st < k && so[st] == q implies #[trigger] positions(so, q, k)[sym_count(so, q, st) as int]
            == st by {
            if st < k - 1 {
                lemma_sym_count_grows(so, q, st + 1, k - 1);
                assert(positions(so, q, k - 1)[sym_count(so, q, st) as int] == st);
            } else {
                assert(sym_count(so, q, st) == positions(so, q, k - 1).len());
                assert(((k - 1) as u16) as int == k - 1);
            }
        }
    }
}

/// Counts only grow.
pub proof fn lemma_sym_count_grows(so: Seq<u16>, q: int, j: int, k: int)
    requires
        0 <= j <= k,
    ensures
        sym_count(so, q, j) <= sym_count(so, q, k),
    decreases k - j,
{
    if j < k {
        lemma_sym_count_grows(so, q, j, k - 1);
    }
}

/// Once a symbol's ranges are laid out over its states in order, each of
/// its states holds the cell `cell_of` names.
pub proof fn lemma_cells_of_symbol(
    so: Seq<u16>,
    log: nat,
    s: int,
    states: Seq<u16>,
    c: int,
    w: int,
    nb: nat,
    tz: nat,
    table: Seq<Cell>,
)
    requires
        so.len() <= 0x1_0000,
        states == positions(so, s, so.len() as int),
        c == states.len(),
        1 <= c,
        0 <= w < c,
        pow2(tz) == c + w,
        nb + tz == log,
        forall|j: int|
            0 <= j < c ==> #[trigger] table[states[idx_at(c, w, j)] as int] == cell_at(s, c, w, nb, j),
    ensures
        forall|st: int| 0 <= st < so.len() && so[st] == s ==> #[trigger] table[st] == cell_of(so, log, st),
{
    lemma_positions(so, s, so.len() as int);
    lemma_share_log(c as nat, tz);
    assert forall|st: int| 0 <= st < so.len() && so[st] == s implies #[trigger] table[st] == cell_of(
        so,
        log,
        st,
    ) by {
        let r = sym_count(so, s, st) as int;
        lemma_sym_count_grows(so, s, st + 1, so.len() as int);
        let j = if r >= w {
            r - w
        } else {
            r + c - w
        };
        assert(idx_at(c, w, j) == r);
        assert(states[r] == st);
        assert(table[states[idx_at(c, w, j)] as int] == cell_at(s, c, w, nb, j));
    }
}

/// The exponent of the smallest power of two no smaller than `c` is the
/// one `next_power_of_two` finds.
pub proof fn lemma_share_log(c: nat, tz: nat)
    requires
        c <= pow2(tz) < 2 * c,
    ensures
        share_log(c) == tz,
{
    let k = share_log(c);
    assert(c <= pow2(k) && pow2(k) < 2 * c);
    if k < tz {
        vstd::arithmetic::power2::lemma_pow2_adds(k, (tz - k) as nat);
        vstd::arithmetic::power2::lemma_pow2_strictly_increases(0, (tz - k) as nat);
        vstd::arithmetic::power2::lemma2_to64();
        assert(pow2(tz) >= 2 * pow2(k)) by (nonlinear_arith)
            requires
                pow2(tz) == pow2(k) * pow2((tz - k) as nat),
                pow2((tz - k) as nat) >= 2,
        ;
    } else if k > tz {
        vstd::arithmetic::power2::lemma_pow2_adds(tz, (k - tz) as nat);
        vstd::arithmetic::power2::lemma_pow2_strictly_increases(0, (k - tz) as nat);
        vstd::arithmetic::power2::lemma2_to64();
        assert(pow2(k) >= 2 * pow2(tz)) by (nonlinear_arith)
            requires
                pow2(k) == pow2(tz) * pow2((k - tz) as nat),
                pow2((k - tz) as nat) >= 2,
        ;
    }
}

/// The smallest power of two no smaller than `count`, and its exponent.
pub fn next_power_of_two(count: usize) -> (r: (usize, u32))
    requires
        1 <= count <= 0x8000,
    ensures
        r.0 == pow2(r.1 as nat),
        count <= r.0,
        r.0 < 2 * count,
        r.1 <= 15,
{
    let mut shares: usize = 1;
    let mut tz: u32 = 0;
    proof {
        vstd::arithmetic::power2::lemma2_to64();
    }
    while shares < count
        invariant
            1 <= count <= 0x8000,
            shares == pow2(tz as nat),
            shares < 2 * count,
            tz <= 15,
            shares <= 0x8000,
        decreases 15 - tz,
    {
        proof {
            vstd::arithmetic::power2::lemma_pow2_unfold((tz + 1) as nat);
            vstd::arithmetic::power2::lemma2_to64();
            if tz >= 15 {
                if tz > 15 {
                    vstd::arithmetic::power2::lemma_pow2_strictly_increases(15, tz as nat);
                }
                assert(false);
            }
        }
        shares = shares * 2;
        tz = tz + 1;
    }
    (shares, tz)
}

/// `2^bits` as a `usize`, for `bits` up to 16.
pub fn pow2_usize(bits: u32) -> (r: usize)
    requires
        bits <= 16,
    ensures
        r == pow2(bits as nat),
{
    proof {
        vstd::arithmetic::power2::lemma2_to64();
        if bits < 16 {
            vstd::arithmetic::power2::lemma_pow2_strictly_increases(bits as nat, 16);
        }
        vstd::bits::lemma_usize_shl_is_mul(1, bits as usize);
    }
    1usize << bits
}

/// Which of a symbol's `c` states (in increasing order) the `k`-th range
/// goes to: ranges start at the first of the `c - w` single-share states
/// and wrap round to the `w` double-share ones.
pub open spec fn idx_at(c: int, w: int, k: int) -> int {
    if w + k < c {
        w + k
    } else {
        w + k - c
    }
}

/// The width exponent of the `k`-th range: the single-share ones come
/// first.
pub open spec fn bits_at(c: int, w: int, nb: nat, k: int) -> nat {
    if k < c - w {
        nb
    } else {
        nb + 1
    }
}

/// Where the `k`-th range starts.
pub open spec fn base_at(c: int, w: int, nb: nat, k: int) -> int {
    let p = pow2(nb) as int;
    let q = c - w;
    if k <= q {
        k * p
    } else {
        q * p + (k - q) * (2 * p)
    }
}

/// The cell the `j`-th range of symbol `s` becomes.
pub open spec fn cell_at(s: int, c: int, w: int, nb: nat, j: int) -> Cell {
    Cell { symbol: s as u16, bits: bits_at(c, w, nb, j) as u32, baseline: base_at(c, w, nb, j) as u16 }
}

/// One of the first `k` ranges of symbol `s` holds `t`.
pub open spec fn hit(s: int, c: int, w: int, nb: nat, k: int, t: int) -> bool {
    exists|j: int| 0 <= j < k && #[trigger] covers(cell_at(s, c, w, nb, j), t)
}

/// Consecutive ranges abut.
pub proof fn lemma_base_step(c: int, w: int, nb: nat, k: int)
    requires
        0 <= w < c,
        0 <= k < c,
    ensures
        base_at(c, w, nb, k + 1) == base_at(c, w, nb, k) + pow2(bits_at(c, w, nb, k)),
{
    let p = pow2(nb) as int;
    vstd::arithmetic::power2::lemma_pow2_unfold(nb + 1);
    let q = c - w;
    if k < q {
        assert((k + 1) * p == k * p + p) by (nonlinear_arith);
    } else if k == q {
        assert(q * p + (k + 1 - q) * (2 * p) == k * p + 2 * p) by (nonlinear_arith)
            requires
                k == q,
        ;
    } else {
        assert(q * p + (k + 1 - q) * (2 * p) == q * p + (k - q) * (2 * p) + 2 * p) by (nonlinear_arith);
    }
}

/// The ranges run from 0 and end at the last one's end, which is the
/// table's size when `2^nb * (c + w)` is.
pub proof fn lemma_base_bounds(c: int, w: int, nb: nat, k: int)
    requires
        0 <= w < c,
        0 <= k <= c,
    ensures
        0 <= base_at(c, w, nb, k) <= base_at(c, w, nb, c),
        base_at(c, w, nb, c) == pow2(nb) * (c + w),
        k < c ==> base_at(c, w, nb, k) + pow2(bits_at(c, w, nb, k)) <= base_at(c, w, nb, c),
    decreases c - k,
{
    let p = pow2(nb) as int;
    vstd::arithmetic::power2::lemma_pow2_pos(nb);
    let q = c - w;
    if w == 0 {
        assert(c * p == p * (c + w)) by (nonlinear_arith)
            requires
                w == 0,
        ;
    } else {
        assert(q * p + (c - q) * (2 * p) == p * (c + w)) by (nonlinear_arith)
            requires
                q == c - w,
        ;
    }
    if k <= q {
        assert(0 <= k * p) by (nonlinear_arith)
            requires
                k >= 0,
                p > 0,
        ;
    } else {
        assert(0 <= q * p + (k - q) * (2 * p)) by (nonlinear_arith)
            requires
                k > q,
                q >= 1,
                p > 0,
        ;
    }
    if k < c {
        lemma_base_step(c, w, nb, k);
        lemma_base_bounds(c, w, nb, k + 1);
    }
}

/// Builds the decoding table a normalized distribution describes (RFC 8478,
/// section 4.1.1). "Less than one" symbols take one cell each from the end
/// of the table, retreating; the others are spread over the rest with a
/// fixed odd stride; then each symbol holding `count` cells is given
/// `count.next_power_of_two()` equal shares of the state space, its lowest
/// cells taking two shares each (one bit more), with baselines running
/// upwards from its first single-share cell and wrapping.
pub fn build_table(dist: &Vec<i16>, log: u32) -> (table: Vec<Cell>)
    requires
        normalized(dist@, log),
    ensures
        table_ok(table@, dist@.len(), log as nat),
        forall|t: int| 0 <= t < dist@.len() && dist@[t] != 0 ==> #[trigger] has_cell(table@, t),
        table@ == fse_table(dist@, log),
{
    let n = dist.len();
    let size = pow2_usize(log);
    proof {
        vstd::arithmetic::power2::lemma2_to64();
        vstd::arithmetic::power2::lemma_pow2_strictly_increases(log as nat, 16);
        vstd::arithmetic::power2::lemma_pow2_strictly_increases(4, log as nat);
    }
    let mask = size - 1;
    let mut symbol_of: Vec<u16> = vec![0u16; size];
    proof {
        assert(symbol_of@ == neg_spread(dist@, 0, size as nat));
    }
    let mut reserved: usize = size;
    let mut s: usize = 0;
    while s < n
        invariant
            symbol_of@ == neg_spread(dist@, s as int, size as nat),
            n == dist@.len(),
            normalized(dist@, log),
            size == pow2(log as nat),
            16 < size <= 0x8000,
            s <= n,
            symbol_of@.len() == size,
            reserved + count_neg(dist@, s as int) == size,
            forall|st: int| 0 <= st < size ==> #[trigger] symbol_of@[st] < n,
            forall|t: int| 0 <= t < s && dist@[t] < 0 ==> #[trigger] held_from(symbol_of@, t, reserved as int),
        decreases n - s,
    {
        proof {
            lemma_counts_grow(dist@, s + 1, n as int);
        }
        if dist[s] < 0 {
            let ghost before = symbol_of@;
            reserved = reserved - 1;
            symbol_of.set(reserved, s as u16);
            proof {
                assert forall|t: int| 0 <= t < s + 1 && dist@[t] < 0 implies #[trigger] held_from(symbol_of@, t, reserved as int) by {
                    if t == s {
                        assert(symbol_of@[reserved as int] == t);
                    } else {
                        assert(held_from(before, t, reserved + 1));
                        let st = choose|st: int| reserved + 1 <= st < before.len() && #[trigger] before[st] == t;
                        assert(symbol_of@[st] == t);
                    }
                }
            }
        }
        s = s + 1;
    }
    let ghost sym0 = symbol_of@;
    let ghost total = sum_pos(dist@, n as int);
    proof {
        lemma_counts_grow(dist@, 0, n as int);
    }
    let stride = size / 2 + size / 8 + 3;
    proof {
        assert(stride % 2 == 1) by {
            vstd::arithmetic::power2::lemma_pow2_adds(3, (log - 3) as nat);
            vstd::arithmetic::power2::lemma2_to64();
        }
        assert(mask == vstd::bits::low_bits_mask(log as nat));
    }
    let mut pos: usize = 0;
    let ghost mut j: int = 0;
    let mut s: usize = 0;
    let ghost bound = reserved as int;
    proof {
        assert(bound == size - count_neg(dist@, n as int));
        assert(stride == spread_stride(size as nat));
    }
    proof {
        assert(0 * (stride as int) == 0);
        assert(walk(0, stride as int, size as int) == 0);
        assert(reserved <= size);
    }
    while s < n
        invariant
            n == dist@.len(),
            normalized(dist@, log),
            size == pow2(log as nat),
            16 < size <= 0x8000,
            5 <= log <= 15,
            mask == size - 1,
            mask == vstd::bits::low_bits_mask(log as nat),
            stride < size,
            0 < stride,
            stride % 2 == 1,
            pos < size,
            s <= n,
            n <= 0x1_0000,
            symbol_of@.len() == size,
            forall|st: int| 0 <= st < size ==> #[trigger] symbol_of@[st] < n,
            reserved == total,
            reserved <= size,
            total == sum_pos(dist@, n as int),
            sym0.len() == size,
            forall|st: int| reserved <= st < size ==> #[trigger] symbol_of@[st] == sym0[st],
            forall|t: int| 0 <= t < n && dist@[t] < 0 ==> #[trigger] held_from(sym0, t, reserved as int),
            0 <= j,
            pos == walk(j, stride as int, size as int),
            bound == reserved,
            bound == size - count_neg(dist@, n as int),
            stride == spread_stride(size as nat),
            (symbol_of@, pos as int) == place_symbols(dist@, s as int, size as nat),
            sum_pos(dist@, s as int) < total ==> (pos < reserved && low_count(j, stride as int, size as int, reserved as int) == sum_pos(dist@, s as int) && j < size),
            forall|t: int| 0 <= t < s && dist@[t] > 0 ==> #[trigger] placed(symbol_of@, t, j, stride as int, size as int, reserved as int),
        decreases n - s,
    {
        let p = dist[s];
        let mut c: i16 = 0;
        proof {
            lemma_counts_grow(dist@, s + 1, n as int);
        }
        while c < p
            invariant
                n == dist@.len(),
                s < n,
                n <= 0x1_0000,
                size == pow2(log as nat),
                16 < size <= 0x8000,
                5 <= log <= 15,
                mask == size - 1,
                mask == vstd::bits::low_bits_mask(log as nat),
                stride < size,
                0 < stride,
                stride % 2 == 1,
                pos < size,
                symbol_of@.len() == size,
                forall|st: int| 0 <= st < size ==> #[trigger] symbol_of@[st] < n,
                p == dist@[s as int],
                0 <= c,
                p > 0 ==> c <= p,
                p <= 0 ==> c == 0,
                p > 0 ==> sum_pos(dist@, s as int) + p <= total,
                reserved == total,
                reserved <= size,
                sym0.len() == size,
                forall|st: int| reserved <= st < size ==> #[trigger] symbol_of@[st] == sym0[st],
                0 <= j,
                pos == walk(j, stride as int, size as int),
                bound == reserved,
                stride == spread_stride(size as nat),
                (symbol_of@, pos as int) == place_cells(
                    place_symbols(dist@, s as int, size as nat),
                    s as int,
                    c as int,
                    size as nat,
                    bound,
                ),
                sum_pos(dist@, s as int) + c < total ==> (pos < reserved && low_count(j, stride as int, size as int, reserved as int) == sum_pos(dist@, s as int) + c && j < size),
                forall|t: int| 0 <= t < s && dist@[t] > 0 ==> #[trigger] placed(symbol_of@, t, j, stride as int, size as int, reserved as int),
                c > 0 ==> placed(symbol_of@, s as int, j, stride as int, size as int, reserved as int),
            decreases p - c,
        {
            let ghost before = symbol_of@;
            let ghost j0 = j;
            let ghost w = sum_pos(dist@, s as int) + c;
            let ghost target = advance(pos as int, stride as int, size as int, bound, size as nat);
            symbol_of.set(pos, s as u16);
            proof {
                assert forall|t: int| 0 <= t < s && dist@[t] > 0 implies #[trigger] placed(symbol_of@, t, j, stride as int, size as int, reserved as int) by {
                    assert(placed(before, t, j, stride as int, size as int, reserved as int));
                    let i = choose|i: int| 0 <= i < j && walk(i, stride as int, size as int) < reserved && #[trigger] before[walk(i, stride as int, size as int)] == t;
                    lemma_walk_injective(i, j, stride as int, log as nat);
                    assert(symbol_of@[walk(i, stride as int, size as int)] == t);
                }
                assert(symbol_of@[walk(j, stride as int, size as int)] == s);
                if c > 0 {
                    let i = choose|i: int| 0 <= i < j && walk(i, stride as int, size as int) < reserved && #[trigger] before[walk(i, stride as int, size as int)] == s;
                    assert(before[walk(i, stride as int, size as int)] == s);
                }
                lemma_walk_step(j, stride as int, size as int);
                lemma_walk_counts(j + 1, stride as int, log as nat, reserved as int);
                lemma_walk_counts(size as int, stride as int, log as nat, reserved as int);
            }
            // The stride is odd and the table a power of two, so every
            // position comes round within `size` steps; the bound on the
            // search never cuts it short.
            let mut tries: usize = 0;
            loop
                invariant_except_break
                    tries < size,
                    low_count(j + 1, stride as int, size as int, reserved as int) == w + 1,
                    w + 1 < total ==> j + 1 < size,
                    advance(pos as int, stride as int, size as int, bound, (size - tries) as nat) == target,
                invariant
                    size == pow2(log as nat),
                    16 < size <= 0x8000,
                    5 <= log <= 15,
                    mask == size - 1,
                    mask == vstd::bits::low_bits_mask(log as nat),
                    stride < size,
                    0 < stride,
                    stride % 2 == 1,
                    pos < size,
                    reserved == total,
                    reserved <= size,
                    bound == reserved,
                    j == j0 + tries,
                    0 <= j0,
                    pos == walk(j, stride as int, size as int),
                    symbol_of@.len() == size,
                ensures
                    pos < size,
                    pos == target,
                    low_count(j, stride as int, size as int, reserved as int) == w + 1,
                    w + 1 < total ==> (pos < reserved && j < size),
                decreases size - tries,
            {
                let next = pos + stride;
                proof {
                    crate::bits::lemma_and_mask(next, mask);
                    vstd::bits::lemma_usize_low_bits_mask_is_mod(next, log as nat);
                    lemma_walk_step(j, stride as int, size as int);
                }
                pos = next & mask;
                tries = tries + 1;
                proof {
                    j = j + 1;
                    lemma_walk_counts(size as int, stride as int, log as nat, reserved as int);
                    if j + 1 <= size {
                        lemma_walk_step(j, stride as int, size as int);
                    }
                }
                if pos < reserved || tries >= size {
                    break;
                }
            }
            proof {
                let ghost sym = symbol_of@;
                assert forall|t: int| 0 <= t < s && dist@[t] > 0 implies #[trigger] placed(sym, t, j, stride as int, size as int, reserved as int) by {
                    assert(placed(sym, t, j0, stride as int, size as int, reserved as int));
                    let i = choose|i: int| 0 <= i < j0 && walk(i, stride as int, size as int) < reserved && #[trigger] sym[walk(i, stride as int, size as int)] == t;
                    assert(sym[walk(i, stride as int, size as int)] == t);
                }
                assert(sym[walk(j0, stride as int, size as int)] == s);
                assert(placed(sym, s as int, j, stride as int, size as int, reserved as int));
            }
            c = c + 1;
        }
        proof {
            if p > 0 {
                assert(c == p);
            }
            assert(sum_pos(dist@, s + 1) == sum_pos(dist@, s as int) + if p > 0 {
                p as nat
            } else {
                0nat
            });
        }
        s = s + 1;
    }
    proof {
        assert forall|t: int| 0 <= t < n && dist@[t] != 0 implies #[trigger] occurs(symbol_of@, t) by {
            if dist@[t] > 0 {
                assert(placed(symbol_of@, t, j, stride as int, size as int, reserved as int));
                let i = choose|i: int| 0 <= i < j && walk(i, stride as int, size as int) < reserved && #[trigger] symbol_of@[walk(i, stride as int, size as int)] == t;
                lemma_walk_step(i, stride as int, size as int);
                assert(symbol_of@[walk(i, stride as int, size as int)] == t);
            } else {
                assert(held_from(sym0, t, reserved as int));
                let st = choose|st: int| reserved <= st < sym0.len() && #[trigger] sym0[st] == t;
                assert(symbol_of@[st] == t);
            }
        }
    }
    let ghost so = symbol_of@;
    proof {
        assert(so == spread(dist@, log));
    }
    let mut table: Vec<Cell> = vec![Cell { symbol: 0, bits: 0, baseline: 0 }; size];
    let mut s: usize = 0;
    while s < n
        invariant
            symbol_of@ == so,
            forall|st: int|
                0 <= st < size && #[trigger] symbol_of@[st] < s ==> table@[st] == cell_of(
                    so,
                    log as nat,
                    st,
                ),
            n == dist@.len(),
            1 <= n <= 0x1_0000,
            size == pow2(log as nat),
            16 < size <= 0x8000,
            5 <= log <= 15,
            s <= n,
            symbol_of@.len() == size,
            table@.len() == size,
            forall|st: int| 0 <= st < size ==> #[trigger] symbol_of@[st] < n,
            forall|st: int|
                0 <= st < size && #[trigger] symbol_of@[st] < s ==> table@[st].symbol == symbol_of@[st]
                    && table@[st].bits <= log && table@[st].baseline + pow2(table@[st].bits as nat)
                    <= size,
            forall|q: int, t: int|
                0 <= q < s && 0 <= t < size && #[trigger] occurs(symbol_of@, q) ==> #[trigger] covered_by(
                    table@,
                    symbol_of@,
                    q,
                    t,
                ),
        decreases n - s,
    {
        let states = states_of(&symbol_of, s as u16);
        let count = states.len();
        let ghost start = table@;
        if count > 0 {
            let (shares, tz) = next_power_of_two(count);
            proof {
                vstd::arithmetic::power2::lemma2_to64();
                vstd::arithmetic::power2::lemma_pow2_unfold((log + 1) as nat);
                if tz > log + 1 {
                    vstd::arithmetic::power2::lemma_pow2_strictly_increases((log + 1) as nat, tz as nat);
                }
                assert(tz <= log);
                if tz == 0 {
                    assert(shares == 1);
                }
                vstd::arithmetic::power2::lemma_pow2_adds((log - tz) as nat, tz as nat);
            }
            let wide = shares - count;
            let nb = log - tz;
            let ghost c = count as int;
            let ghost w = wide as int;
            proof {
                assert(pow2(nb as nat) * (c + w) == size) by (nonlinear_arith)
                    requires
                        pow2(nb as nat) * pow2(tz as nat) == size,
                        shares == pow2(tz as nat),
                        shares == c + w,
                ;
                lemma_base_bounds(c, w, nb as nat, 0);
            }
            let mut base: usize = 0;
            let mut k: usize = 0;
            while k < count
                invariant
                    s < n,
                    n <= 0x1_0000,
                    count == states@.len(),
                    c == count,
                    w == wide,
                    1 <= count <= size,
                    wide < count,
                    tz <= log,
                    nb == log - tz,
                    wide > 0 ==> tz >= 1,
                    pow2(nb as nat) * (c + w) == size,
                    k <= count,
                    base == base_at(c, w, nb as nat, k as int),
                    table@.len() == size,
                    start.len() == size,
                    symbol_of@.len() == size,
                    size == pow2(log as nat),
                    16 < size <= 0x8000,
                    5 <= log <= 15,
                    forall|i: int| 0 <= i < states@.len() ==> #[trigger] states@[i] < size
                        && symbol_of@[states@[i] as int] == s,
                    forall|i: int, j: int| 0 <= i < j < states@.len() ==> states@[i] < states@[j],
                    forall|j: int|
                        0 <= j < k ==> #[trigger] table@[states@[idx_at(c, w, j)] as int] == cell_at(
                            s as int,
                            c,
                            w,
                            nb as nat,
                            j,
                        ),
                    forall|st: int| 0 <= st < size && symbol_of@[st] != s ==> #[trigger] table@[st] == start[st],
                    forall|t: int| 0 <= t < base ==> #[trigger] hit(s as int, c, w, nb as nat, k as int, t),
                decreases count - k,
            {
                proof {
                    lemma_base_bounds(c, w, nb as nat, k as int);
                    lemma_base_step(c, w, nb as nat, k as int);
                }
                let idx = if wide + k < count {
                    wide + k
                } else {
                    wide + k - count
                };
                let bits = if idx < wide {
                    nb + 1
                } else {
                    nb
                };
                assert(bits == bits_at(c, w, nb as nat, k as int));
                let st = states[idx] as usize;
                let cell = Cell { symbol: s as u16, bits, baseline: base as u16 };
                let ghost before = table@;
                table.set(st, cell);
                proof {
                    assert forall|j: int| 0 <= j < k + 1 implies #[trigger] table@[states@[idx_at(c, w, j)] as int]
                        == cell_at(s as int, c, w, nb as nat, j) by {
                        if j < k {
                            assert(idx_at(c, w, j) != idx_at(c, w, k as int));
                            let a = idx_at(c, w, j);
                            let b = idx_at(c, w, k as int);
                            if a < b {
                                assert(states@[a] < states@[b]);
                            } else {
                                assert(states@[b] < states@[a]);
                            }
                        }
                    }
                    assert forall|t: int| 0 <= t < base + pow2(bits as nat) implies #[trigger] hit(
                        s as int,
                        c,
                        w,
                        nb as nat,
                        k + 1,
                        t,
                    ) by {
                        if t >= base {
                            assert(covers(cell_at(s as int, c, w, nb as nat, k as int), t));
                        } else {
                            assert(hit(s as int, c, w, nb as nat, k as int, t));
                        }
                    }
                }
                base = base + pow2_usize(bits);
                k = k + 1;
            }
            proof {
                assert forall|st: int|
                    0 <= st < size && #[trigger] symbol_of@[st] < s + 1 implies table@[st].symbol
                    == symbol_of@[st] && table@[st].bits <= log && table@[st].baseline + pow2(
                    table@[st].bits as nat,
                ) <= size by {
                    if symbol_of@[st] == s {
                        let i = choose|i: int| 0 <= i < states@.len() && states@[i] == st;
                        let j = if i >= w {
                            i - w
                        } else {
                            i + c - w
                        };
                        assert(idx_at(c, w, j) == i);
                        lemma_base_bounds(c, w, nb as nat, j);
                    }
                }
                assert forall|q: int, t: int|
                    0 <= q < s + 1 && 0 <= t < size && #[trigger] occurs(symbol_of@, q) implies #[trigger] covered_by(
                    table@,
                    symbol_of@,
                    q,
                    t,
                ) by {
                    if q == s {
                        assert(hit(s as int, c, w, nb as nat, c, t));
                        let j = choose|j: int| 0 <= j < c && #[trigger] covers(cell_at(s as int, c, w, nb as nat, j), t);
                        let st = states@[idx_at(c, w, j)] as int;
                        assert(symbol_of@[st] == q && table@[st].symbol == q && covers(table@[st], t));
                    } else {
                        assert(covered_by(start, symbol_of@, q, t));
                        let st = choose|st: int|
                            0 <= st < start.len() && symbol_of@[st] == q && #[trigger] start[st].symbol == q
                                && covers(start[st], t);
                        assert(table@[st] == start[st]);
                    }
                }
            }
            proof {
                lemma_cells_of_symbol(so, log as nat, s as int, states@, c, w, nb as nat, tz as nat, table@);
            }
        } else {
            proof {
                lemma_positions(so, s as int, size as int);
                assert forall|st: int| 0 <= st < size implies #[trigger] symbol_of@[st] != s by {
                    if symbol_of@[st] == s {
                        lemma_sym_count_grows(so, s as int, st + 1, size as int);
                    }
                }
                assert forall|q: int, t: int|
                    0 <= q < s + 1 && 0 <= t < size && #[trigger] occurs(symbol_of@, q) implies #[trigger] covered_by(
                    table@,
                    symbol_of@,
                    q,
                    t,
                ) by {
                    if q == s {
                        let st = choose|st: int| 0 <= st < symbol_of@.len() && #[trigger] symbol_of@[st] == q;
                        let i = choose|i: int| 0 <= i < states@.len() && states@[i] == st;
                    }
                }
            }
        }
        proof {
            assert forall|st: int|
                0 <= st < size && #[trigger] symbol_of@[st] < s + 1 implies table@[st] == cell_of(
                so,
                log as nat,
                st,
            ) by {
                if symbol_of@[st] != s {
                    assert(table@[st] == start[st]);
                }
            }
        }
        s = s + 1;
    }
    proof {
        assert(table@ =~= fse_table(dist@, log)) by {
            assert forall|st: int| 0 <= st < size implies table@[st] == cell_of(so, log as nat, st) by {
                assert(symbol_of@[st] < n);
            }
        }
    }
    proof {
        assert forall|st: int| 0 <= st < table@.len() implies {
            &&& (#[trigger] table@[st]).symbol < n
            &&& table@[st].bits <= log
            &&& table@[st].baseline + pow2(table@[st].bits as nat) <= pow2(log as nat)
        } by {
            assert(symbol_of@[st] < n);
        }
        assert forall|q: int, t: int|
            0 <= t < pow2(log as nat) && #[trigger] has_cell(table@, q) implies #[trigger] covered(
            table@,
            q,
            t,
        ) by {
            let st = choose|st: int| 0 <= st < table@.len() && #[trigger] table@[st].symbol == q;
            assert(symbol_of@[st] < n);
            assert(occurs(symbol_of@, q));
            assert(covered_by(table@, symbol_of@, q, t));
            let w = choose|w: int|
                0 <= w < table@.len() && symbol_of@[w] == q && #[trigger] table@[w].symbol == q && covers(
                    table@[w],
                    t,
                );
            assert(table@[w].symbol == q && covers(table@[w], t));
        }
    }
    proof {
        assert forall|t: int| 0 <= t < n && dist@[t] != 0 implies #[trigger] has_cell(table@, t) by {
            assert(occurs(symbol_of@, t));
            let st = choose|st: int| 0 <= st < symbol_of@.len() && #[trigger] symbol_of@[st] == t;
            assert(symbol_of@[st] < n);
            assert(table@[st].symbol == t);
        }
    }
    table
}

/// The cells of `table` decoding to `s`, by state, in increasing order.
pub fn cells_of(table: &Vec<Cell>, s: u16) -> (r: Vec<u16>)
    requires
        table@.len() <= 0x1_0000,
    ensures
        forall|i: int| 0 <= i < r@.len() ==> #[trigger] r@[i] < table@.len() && table@[r@[i] as int].symbol == s,
        forall|st: int| 0 <= st < table@.len() && #[trigger] table@[st].symbol == s ==> exists|i: int|
            0 <= i < r@.len() && r@[i] == st,
{
    let mut out: Vec<u16> = Vec::new();
    let mut st: usize = 0;
    while st < table.len()
        invariant
            st <= table@.len() <= 0x1_0000,
            forall|i: int| 0 <= i < out@.len() ==> #[trigger] out@[i] < st && table@[out@[i] as int].symbol == s,
            forall|q: int| 0 <= q < st && #[trigger] table@[q].symbol == s ==> exists|i: int|
                0 <= i < out@.len() && out@[i] == q,
        decreases table@.len() - st,
    {
        if table[st].symbol == s {
            let ghost before = out@;
            out.push(st as u16);
            proof {
                assert forall|q: int| 0 <= q < st + 1 && #[trigger] table@[q].symbol == s implies exists|i: int|
                    0 <= i < out@.len() && out@[i] == q by {
                    if q < st {
                        let i = choose|i: int| 0 <= i < before.len() && before[i] == q;
                        assert(out@[i] == q);
                    } else {
                        assert(out@[before.len() as int] == q);
                    }
                }
            }
        }
        st = st + 1;
    }
    out
}

/// `step` leaves the decoder in state `t` after it emits `s`: it names a
/// cell of `s` (its baseline and width too) whose range holds `t`.
pub open spec fn step_ok(table: Seq<Cell>, step: Step, s: int, t: int) -> bool {
    &&& step.state < table.len()
    &&& table[step.state as int].symbol == s
    &&& table[step.state as int].baseline == step.baseline
    &&& table[step.state as int].bits == step.bits
    &&& covers(table[step.state as int], t)
}

/// One of the first `i` cells listed in `states` holds `t`.
pub open spec fn listed_covers(table: Seq<Cell>, states: Seq<u16>, i: int, t: int) -> bool {
    exists|j: int| 0 <= j < i && #[trigger] covers(table[states[j] as int], t)
}

/// Encoding tables derived from one normalized distribution.
pub struct Encoder {
    /// The number of states, `2^log`.
    pub size: usize,
    /// `size` steps per symbol, indexed `symbol * size + target_state`.
    pub steps: Vec<Step>,
    /// State each symbol is encoded from when it is the last of a stream.
    pub initial: Vec<u16>,
    /// The decoding table the steps run backwards.
    pub table: Vec<Cell>,
}

/// The encoder's tables invert its decoding table: for every symbol that
/// has cells and every target state, the step names a cell of that symbol
/// whose range holds the target, and the initial state decodes to it.
pub open spec fn steps_invert(e: Encoder, n: nat) -> bool {
    &&& e.steps@.len() == n * e.size
    &&& e.initial@.len() == n
    &&& forall|s: int, t: int|
        0 <= s < n && 0 <= t < e.size && #[trigger] has_cell(e.table@, s) ==> step_ok(
            e.table@,
            #[trigger] e.steps@[s * e.size + t],
            s,
            t,
        )
    &&& forall|s: int|
        0 <= s < n && #[trigger] has_cell(e.table@, s) ==> e.initial@[s] < e.table@.len()
            && e.table@[e.initial@[s] as int].symbol == s
}

/// Positions in different symbols' rows are different.
pub proof fn lemma_rows(s: int, t: int, s2: int, t2: int, size: int, n: int)
    requires
        0 <= s < n,
        0 <= s2 < n,
        0 <= t < size,
        0 <= t2 < size,
    ensures
        0 <= s * size + t < n * size,
        s != s2 ==> s * size + t != s2 * size + t2,
{
    assert(0 <= s * size + t < n * size) by (nonlinear_arith)
        requires
            0 <= s < n,
            0 <= t < size,
    ;
    if s != s2 {
        assert(s * size + t != s2 * size + t2) by (nonlinear_arith)
            requires
                0 <= s < n,
                0 <= s2 < n,
                s != s2,
                0 <= t < size,
                0 <= t2 < size,
        ;
    }
}

impl Encoder {
    /// Builds the tables for `dist`, normalized to `2^log`.
    pub fn new(dist: &Vec<i16>, log: u32) -> (r: Encoder)
        requires
            normalized(dist@, log),
        ensures
            r.size == pow2(log as nat),
            table_ok(r.table@, dist@.len(), log as nat),
            r.table@ == fse_table(dist@, log),
            steps_invert(r, dist@.len()),
            forall|t: int| 0 <= t < dist@.len() && dist@[t] != 0 ==> #[trigger] has_cell(r.table@, t),
    {
        let table = build_table(dist, log);
        let size = pow2_usize(log);
        let n = dist.len();
        proof {
            vstd::arithmetic::power2::lemma2_to64();
            vstd::arithmetic::power2::lemma_pow2_strictly_increases(log as nat, 16);
            assert(n * size <= 0x1_0000 * 0x8000) by (nonlinear_arith)
                requires
                    n <= 0x1_0000,
                    size <= 0x8000,
            ;
        }
        let mut steps: Vec<Step> = vec![Step { state: 0, baseline: 0, bits: 0 }; n * size];
        let mut initial: Vec<u16> = vec![0u16; n];
        let mut s: usize = 0;
        while s < n
            invariant
                n == dist@.len(),
                1 <= n <= 0x1_0000,
                size == pow2(log as nat),
                size <= 0x8000,
                log <= 15,
                n * size <= 0x1_0000 * 0x8000,
                table_ok(table@, n as nat, log as nat),
                s <= n,
                steps@.len() == n * size,
                initial@.len() == n,
                forall|q: int, t: int|
                    0 <= q < s && 0 <= t < size && #[trigger] has_cell(table@, q) ==> step_ok(
                        table@,
                        #[trigger] steps@[q * size + t],
                        q,
                        t,
                    ),
                forall|q: int|
                    0 <= q < s && #[trigger] has_cell(table@, q) ==> initial@[q] < table@.len()
                        && table@[initial@[q] as int].symbol == q,
            decreases n - s,
        {
            let states = cells_of(&table, s as u16);
            if states.len() > 0 {
                initial.set(s, states[0]);
                let ghost start = steps@;
                let mut i: usize = 0;
                while i < states.len()
                    invariant
                        n == dist@.len(),
                        1 <= n <= 0x1_0000,
                        s < n,
                        size == pow2(log as nat),
                        size <= 0x8000,
                        log <= 15,
                        n * size <= 0x1_0000 * 0x8000,
                        table_ok(table@, n as nat, log as nat),
                        steps@.len() == n * size,
                        start.len() == n * size,
                        i <= states@.len(),
                        forall|j: int| 0 <= j < states@.len() ==> #[trigger] states@[j] < table@.len()
                            && table@[states@[j] as int].symbol == s,
                        forall|p: int|
                            0 <= p < n * size && !(s * size <= p < s * size + size) ==> #[trigger] steps@[p]
                                == start[p],
                        forall|t: int|
                            0 <= t < size && #[trigger] listed_covers(table@, states@, i as int, t) ==> step_ok(
                                table@,
                                steps@[s * size + t],
                                s as int,
                                t,
                            ),
                    decreases states@.len() - i,
                {
                    let st = states[i];
                    let cell = table[st as usize];
                    proof {
                        assert(table@[st as int].bits <= log && table@[st as int].baseline + pow2(
                            table@[st as int].bits as nat,
                        ) <= pow2(log as nat));
                    }
                    let width = pow2_usize(cell.bits);
                    let base = cell.baseline as usize;
                    let step = Step { state: st, baseline: cell.baseline, bits: cell.bits };
                    let ghost mid = steps@;
                    let mut x: usize = 0;
                    while x < width
                        invariant
                            s < n,
                            n <= 0x1_0000,
                            size == pow2(log as nat),
                            size <= 0x8000,
                            n * size <= 0x1_0000 * 0x8000,
                            steps@.len() == n * size,
                            mid.len() == n * size,
                            width == pow2(cell.bits as nat),
                            base + width <= size,
                            x <= width,
                            forall|p: int|
                                0 <= p < n * size && !(s * size + base <= p < s * size + base + x) ==> #[trigger] steps@[p]
                                    == mid[p],
                            forall|y: int| 0 <= y < x ==> #[trigger] steps@[s * size + base + y] == step,
                        decreases width - x,
                    {
                        proof {
                            lemma_rows(s as int, (base + x) as int, 0, 0, size as int, n as int);
                        }
                        steps.set(s * size + base + x, step);
                        x = x + 1;
                    }
                    proof {
                        assert forall|p: int|
                            0 <= p < n * size && !(s * size <= p < s * size + size) implies #[trigger] steps@[p]
                            == start[p] by {
                            assert(steps@[p] == mid[p]);
                        }
                        assert forall|t: int|
                            0 <= t < size && #[trigger] listed_covers(table@, states@, i + 1, t) implies step_ok(
                            table@,
                            steps@[s * size + t],
                            s as int,
                            t,
                        ) by {
                            lemma_rows(s as int, t, 0, 0, size as int, n as int);
                            if base <= t < base + width {
                                assert(steps@[s * size + base + (t - base)] == step);
                                assert(s * size + base + (t - base) == s * size + t);
                            } else {
                                let j = choose|j: int| 0 <= j < i + 1 && #[trigger] covers(
                                    table@[states@[j] as int],
                                    t,
                                );
                                if j == i {
                                    assert(false);
                                }
                                assert(listed_covers(table@, states@, i as int, t));
                                assert(steps@[s * size + t] == mid[s * size + t]);
                            }
                        }
                    }
                    i = i + 1;
                }
                proof {
                    assert forall|q: int, t: int|
                        0 <= q < s + 1 && 0 <= t < size && #[trigger] has_cell(table@, q) implies step_ok(
                        table@,
                        #[trigger] steps@[q * size + t],
                        q,
                        t,
                    ) by {
                        lemma_rows(q, t, s as int, 0, size as int, n as int);
                        if q == s {
                            assert(covered(table@, q, t));
                            let st = choose|st: int|
                                0 <= st < table@.len() && #[trigger] table@[st].symbol == q && covers(
                                    table@[st],
                                    t,
                                );
                            let j = choose|j: int| 0 <= j < states@.len() && states@[j] == st;
                            assert(covers(table@[states@[j] as int], t));
                            assert(listed_covers(table@, states@, states@.len() as int, t));
                        } else {
                            assert(!(s * size <= q * size + t < s * size + size)) by (nonlinear_arith)
                                requires
                                    q != s,
                                    0 <= t < size,
                                    0 <= q,
                                    0 <= s,
                            ;
                            assert(steps@[q * size + t] == start[q * size + t]);
                        }
                    }
                }
            } else {
                proof {
                    assert forall|q: int| 0 <= q < s + 1 && #[trigger] has_cell(table@, q) implies !(q == s) by {
                        if q == s {
                            let st = choose|st: int| 0 <= st < table@.len() && #[trigger] table@[st].symbol == q;
                            let j = choose|j: int| 0 <= j < states@.len() && states@[j] == st;
                        }
                    }
                }
            }
            s = s + 1;
        }
        Encoder { size, steps, initial, table }
    }

    /// The step that leaves the decoder in `target` after emitting
    /// `symbol`.
    pub fn step(&self, symbol: u32, target: u16) -> (r: Step)
        requires
            (symbol as int) * self.size + (target as int) < self.steps@.len(),
        ensures
            r == self.steps@[symbol * self.size + target],
    {
        let len = self.steps.len();
        proof {
            assert((symbol as int) * self.size <= (symbol as int) * self.size + (target as int));
        }
        self.steps[symbol as usize * self.size + target as usize]
    }

    /// The state to start from when `symbol` is the last of the stream.
    pub fn initial_state(&self, symbol: u32) -> (r: u16)
        requires
            symbol < self.initial@.len(),
        ensures
            r == self.initial@[symbol as int],
    {
        self.initial[symbol as usize]
    }
}

} // verus!
