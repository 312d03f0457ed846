//! Normalized FSE distributions and the table descriptions that carry them
//! (RFC 8478, section 4.1.1).
use super::bitstream::{
    forward_bytes, lemma_push_tracks, lemma_push_tracks_all, packed, width, BitWriter,
};
use super::frame::{bit_len, bit_length, lemma_bit_length};
use crate::fse::{count_neg, normalized, sum_pos};
use vstd::arithmetic::power2::{lemma2_to64, pow2};
use vstd::prelude::*;

verus! {

/// The sum of the first `k` counts.
pub open spec fn count_sum(counts: Seq<u32>, k: int) -> nat
    decreases k,
{
    if k <= 0 {
        0
    } else {
        count_sum(counts, k - 1) + counts[k - 1] as nat
    }
}

/// How many of the first `k` entries of `d` are positive.
pub open spec fn count_pos(d: Seq<i16>, k: int) -> nat
    decreases k,
{
    if k <= 0 {
        0
    } else {
        count_pos(d, k - 1) + if d[k - 1] > 0 {
            1nat
        } else {
            0nat
        }
    }
}

/// The points a symbol seen `count` times out of `total` takes at first:
/// its share of `2^log`, rounded to nearest, and at least one if it occurs
/// at all.
pub open spec fn scaled_points(count: nat, total: nat, log: nat) -> int {
    if count == 0 {
        0
    } else {
        let s = ((count * pow2(log) * 2) / total + 1) / 2;
        if s < 1 {
            1
        } else {
            s as int
        }
    }
}

/// Every symbol's points before the rounding error is settled.
pub open spec fn first_pass(counts: Seq<u32>, log: nat) -> Seq<i16> {
    Seq::new(
        counts.len(),
        |s: int| scaled_points(counts[s] as nat, count_sum(counts, counts.len() as int), log) as i16,
    )
}

/// Among the first `n` entries above `floor`, the position of the largest,
/// the last of equals; `-1` where there is none.
pub open spec fn busiest(d: Seq<i16>, floor: int, n: nat) -> int
    decreases n,
{
    if n == 0 {
        -1
    } else {
        let b = busiest(d, floor, (n - 1) as nat);
        if d[n - 1] > floor && (b < 0 || d[n - 1] >= d[b]) {
            n - 1
        } else {
            b
        }
    }
}

/// The distance between two integers.
pub open spec fn gap(a: int, b: int) -> nat {
    if a >= b {
        (a - b) as nat
    } else {
        (b - a) as nat
    }
}

/// Settles the rounding error one point at a time on the busiest symbol,
/// taking where `d` holds too many points (never below one) and giving
/// where it holds too few; stops early where no symbol can move.
pub open spec fn settle(d: Seq<i16>, used: int, target: int) -> Seq<i16>
    decreases gap(used, target),
{
    if used == target {
        d
    } else {
        let floor = if used > target {
            1int
        } else {
            0int
        };
        let s = busiest(d, floor, d.len());
        if s < 0 {
            d
        } else if used > target {
            settle(d.update(s, (d[s] - 1) as i16), used - 1, target)
        } else {
            settle(d.update(s, (d[s] + 1) as i16), used + 1, target)
        }
    }
}

/// The distribution `normalize` gives `counts` on `2^log` points.
pub open spec fn normalized_counts(counts: Seq<u32>, log: nat) -> Seq<i16> {
    let d = first_pass(counts, log);
    settle(d, sum_pos(d, d.len() as int) as int, pow2(log) as int)
}

proof fn lemma_busiest(d: Seq<i16>, floor: int, n: nat)
    requires
        n <= d.len(),
    ensures
        busiest(d, floor, n) < n,
        busiest(d, floor, n) >= 0 ==> d[busiest(d, floor, n)] > floor,
        busiest(d, floor, n) >= 0 ==> forall|j: int|
            0 <= j < n && d[j] > floor ==> #[trigger] d[j] <= d[busiest(d, floor, n)],
        busiest(d, floor, n) < 0 ==> forall|j: int| 0 <= j < n ==> #[trigger] d[j] <= floor,
    decreases n,
{
    if n > 0 {
        lemma_busiest(d, floor, (n - 1) as nat);
    }
}

proof fn lemma_sum_update(d: Seq<i16>, k: int, s: int, v: i16)
    requires
        0 <= s < d.len(),
        0 <= k <= d.len(),
        d[s] >= 0,
        v >= 0,
    ensures
        sum_pos(d.update(s, v), k) == sum_pos(d, k) + if s < k {
            v - d[s]
        } else {
            0
        },
        count_pos(d.update(s, v), k) == count_pos(d, k) + if s < k && d[s] > 0 && v <= 0 {
            -1int
        } else if s < k && d[s] <= 0 && v > 0 {
            1int
        } else {
            0int
        },
        count_neg(d.update(s, v), k) == count_neg(d, k),
    decreases k,
{
    if k > 0 {
        lemma_sum_update(d, k - 1, s, v);
    }
}

proof fn lemma_small_sum(d: Seq<i16>, k: int)
    requires
        0 <= k <= d.len(),
        forall|j: int| 0 <= j < k ==> 0 <= #[trigger] d[j] <= 1,
    ensures
        sum_pos(d, k) == count_pos(d, k),
    decreases k,
{
    if k > 0 {
        lemma_small_sum(d, k - 1);
    }
}

proof fn lemma_no_neg(d: Seq<i16>, k: int)
    requires
        0 <= k <= d.len(),
        forall|j: int| 0 <= j < d.len() ==> 0 <= #[trigger] d[j],
    ensures
        count_neg(d, k) == 0,
        count_pos(d, k) <= sum_pos(d, k),
        forall|j: int| 0 <= j < k ==> #[trigger] d[j] <= sum_pos(d, k),
    decreases k,
{
    if k > 0 {
        lemma_no_neg(d, k - 1);
    }
}

/// Settling keeps which symbols hold points, and lands exactly on the
/// target where every symbol that holds points can keep one.
proof fn lemma_settle(d: Seq<i16>, used: int, target: int)
    requires
        used == sum_pos(d, d.len() as int),
        forall|j: int| 0 <= j < d.len() ==> 0 <= #[trigger] d[j] <= target,
        0 < count_pos(d, d.len() as int) <= target,
        target <= 0x4000,
    ensures
        settle(d, used, target).len() == d.len(),
        forall|j: int|
            0 <= j < d.len() ==> (#[trigger] settle(d, used, target)[j] > 0) == (d[j] > 0)
                && 0 <= settle(d, used, target)[j] <= target,
        sum_pos(settle(d, used, target), d.len() as int) == target,
        count_pos(settle(d, used, target), d.len() as int) == count_pos(d, d.len() as int),
    decreases gap(used, target),
{
    let n = d.len() as int;
    lemma_no_neg(d, n);
    if used != target {
        let floor = if used > target {
            1int
        } else {
            0int
        };
        let s = busiest(d, floor, d.len());
        lemma_busiest(d, floor, d.len());
        if s < 0 {
            if used > target {
                lemma_small_sum(d, n);
            } else {
                assert(count_pos(d, n) == 0) by {
                    lemma_small_zero(d, n);
                }
            }
        } else {
            let v = if used > target {
                (d[s] - 1) as i16
            } else {
                (d[s] + 1) as i16
            };
            lemma_sum_update(d, n, s, v);
            if used < target {
                assert(d[s] <= used);
            }
            let e = d.update(s, v);
            assert forall|j: int| 0 <= j < e.len() implies 0 <= #[trigger] e[j] <= target by {
                if j == s && used < target {
                    assert(d[s] <= sum_pos(d, n));
                }
            }
            lemma_settle(e, if used > target {
                used - 1
            } else {
                used + 1
            }, target);
        }
    }
}

proof fn lemma_small_zero(d: Seq<i16>, k: int)
    requires
        0 <= k <= d.len(),
        forall|j: int| 0 <= j < k ==> #[trigger] d[j] <= 0,
    ensures
        count_pos(d, k) == 0,
    decreases k,
{
    if k > 0 {
        lemma_small_zero(d, k - 1);
    }
}

/// How many of the first `k` counts are not zero.
pub open spec fn present(counts: Seq<u32>, k: int) -> nat
    decreases k,
{
    if k <= 0 {
        0
    } else {
        present(counts, k - 1) + if counts[k - 1] > 0 {
            1nat
        } else {
            0nat
        }
    }
}

proof fn lemma_total_bound(counts: Seq<u32>, k: int)
    requires
        0 <= k <= counts.len(),
    ensures
        forall|j: int| 0 <= j < k ==> #[trigger] counts[j] <= count_sum(counts, k),
        count_sum(counts, k) <= k * 0x1_0000_0000,
    decreases k,
{
    if k > 0 {
        lemma_total_bound(counts, k - 1);
    }
}

proof fn lemma_scaled_bound(c: nat, t: nat, log: nat)
    requires
        0 < c <= t,
    ensures
        1 <= scaled_points(c, t, log) <= pow2(log),
{
    let p = pow2(log);
    vstd::arithmetic::power2::lemma_pow2_pos(log);
    assert(c * p * 2 <= t * (p * 2)) by (nonlinear_arith)
        requires
            c <= t,
            p > 0,
    ;
    vstd::arithmetic::div_mod::lemma_div_is_ordered((c * p * 2) as int, (t * (p * 2)) as int, t as int);
    vstd::arithmetic::div_mod::lemma_div_multiples_vanish((p * 2) as int, t as int);
}

proof fn lemma_first_support(counts: Seq<u32>, log: nat, k: int)
    requires
        0 <= k <= counts.len(),
        log <= 14,
    ensures
        count_pos(first_pass(counts, log), k) == present(counts, k),
        forall|j: int|
            0 <= j < counts.len() ==> {
                &&& (#[trigger] first_pass(counts, log)[j] > 0) == (counts[j] > 0)
                &&& 0 <= first_pass(counts, log)[j] <= pow2(log)
            },
    decreases k,
{
    let d = first_pass(counts, log);
    let n = counts.len() as int;
    lemma_total_bound(counts, n);
    vstd::arithmetic::power2::lemma_pow2_strictly_increases(log, 15);
    lemma2_to64();
    assert forall|j: int| 0 <= j < counts.len() implies {
        &&& (#[trigger] d[j] > 0) == (counts[j] > 0)
        &&& 0 <= d[j] <= pow2(log)
    } by {
        if counts[j] > 0 {
            lemma_scaled_bound(counts[j] as nat, count_sum(counts, n), log);
        }
    }
    if k > 0 {
        lemma_first_support(counts, log, k - 1);
    }
}

/// Settling never moves a symbol into or out of holding points.
proof fn lemma_settle_support(d: Seq<i16>, used: int, target: int)
    requires
        used == sum_pos(d, d.len() as int),
        forall|j: int| 0 <= j < d.len() ==> 0 <= #[trigger] d[j] <= 0x4000,
        target <= 0x4000,
    ensures
        settle(d, used, target).len() == d.len(),
        forall|j: int|
            0 <= j < d.len() ==> (#[trigger] settle(d, used, target)[j] > 0) == (d[j] > 0)
                && 0 <= settle(d, used, target)[j] <= 0x4000,
    decreases gap(used, target),
{
    let n = d.len() as int;
    lemma_no_neg(d, n);
    if used != target {
        let floor = if used > target {
            1int
        } else {
            0int
        };
        let s = busiest(d, floor, d.len());
        lemma_busiest(d, floor, d.len());
        if s >= 0 {
            let v = if used > target {
                (d[s] - 1) as i16
            } else {
                (d[s] + 1) as i16
            };
            lemma_sum_update(d, n, s, v);
            lemma_settle_support(d.update(s, v), if used > target {
                used - 1
            } else {
                used + 1
            }, target);
        }
    }
}

/// Scales `counts` onto `1 << log` points, giving every symbol that occurs
/// at least one point, then settles the rounding error on the busiest
/// symbols, where a one-point change costs the least.
///
/// Every present symbol keeps a real probability, so the "less than one"
/// encoding is never needed; that needs `1 << log` to be at least the
/// number of present symbols for the points to add up.
pub fn normalize(counts: &[u32], log: u32) -> (r: Vec<i16>)
    requires
        log <= 14,
        counts@.len() < 0x1_0000_0000,
    ensures
        r@ == normalized_counts(counts@, log as nat),
        r@.len() == counts@.len(),
        forall|j: int|
            0 <= j < counts@.len() ==> (#[trigger] r@[j] > 0) == (counts@[j] > 0) && r@[j] >= 0,
        0 < present(counts@, counts@.len() as int) <= pow2(log as nat) ==> {
            &&& sum_pos(r@, r@.len() as int) == pow2(log as nat)
            &&& count_neg(r@, r@.len() as int) == 0
        },
        5 <= log && counts@.len() <= 0x1_0000 && 0 < present(counts@, counts@.len() as int) <= pow2(
            log as nat,
        ) ==> normalized(
            r@,
            log,
        ),
{
    let n = counts.len();
    let ghost first = first_pass(counts@, log as nat);
    proof {
        lemma_total_bound(counts@, n as int);
        lemma_first_support(counts@, log as nat, n as int);
        lemma2_to64();
        vstd::arithmetic::power2::lemma_pow2_strictly_increases(log as nat, 15);
        vstd::bits::lemma_u32_shl_is_mul(1, log);
    }
    let mut total: u64 = 0;
    let mut i: usize = 0;
    while i < n
        invariant
            i <= n == counts@.len() < 0x1_0000_0000,
            total == count_sum(counts@, i as int),
            total <= i * 0x1_0000_0000,
        decreases n - i,
    {
        total = total + counts[i] as u64;
        i = i + 1;
    }
    let target_bits: u32 = 1u32 << log;
    let target: i64 = target_bits as i64;
    let mut normalized: Vec<i16> = Vec::new();
    let mut used: i64 = 0;
    let mut i: usize = 0;
    while i < n
        invariant
            i <= n == counts@.len() < 0x1_0000_0000,
            total == count_sum(counts@, n as int),
            target == pow2(log as nat) <= 0x4000,
            target_bits == target,
            first == first_pass(counts@, log as nat),
            forall|j: int| 0 <= j < n ==> 0 <= #[trigger] first[j] <= target,
            normalized@ == first.take(i as int),
            used == sum_pos(first, i as int),
            used <= i * target,
        decreases n - i,
    {
        let count = counts[i];
        if count == 0 {
            normalized.push(0);
            proof {
                assert(used <= (i + 1) * target) by (nonlinear_arith)
                    requires
                        used <= i * target,
                        target >= 0,
                ;
            }
        } else {
            proof {
                lemma_total_bound(counts@, n as int);
                assert((count as u64) * (target_bits as u64) * 2 <= 0x1_0000_0000 * 0x4000 * 2)
                    by (nonlinear_arith)
                    requires
                        count <= 0xffff_ffff,
                        target_bits <= 0x4000,
                ;
            }
            let x: u64 = (count as u64) * (target_bits as u64) * 2 / total;
            let scaled: u64 = (x + 1) / 2;
            let points: u64 = if scaled < 1 {
                1
            } else {
                scaled
            };
            proof {
                assert(points == scaled_points(count as nat, total as nat, log as nat));
                lemma_scaled_bound(count as nat, total as nat, log as nat);
                assert(first[i as int] == points as i16);
                assert(used + points <= (i + 1) * target <= 0x1_0000_0000 * 0x4000) by (nonlinear_arith)
                    requires
                        used <= i * target,
                        points <= target <= 0x4000,
                        i < 0x1_0000_0000,
                ;
            }
            normalized.push(points as i16);
            used = used + points as i64;
        }
        proof {
            assert(first.take(i + 1) == first.take(i as int).push(first[i as int]));
        }
        i = i + 1;
    }
    proof {
        assert(normalized@ == first);
    }
    let ghost used0 = used as int;
    let ghost goal = settle(first, used0, target as int);
    loop
        invariant
            n == counts@.len() < 0x1_0000_0000,
            normalized@.len() == n,
            target == pow2(log as nat) <= 0x4000,
            forall|j: int| 0 <= j < n ==> 0 <= #[trigger] normalized@[j] <= target,
            used == sum_pos(normalized@, n as int),
            used <= n * target,
            settle(normalized@, used as int, target as int) == goal,
        ensures
            normalized@ == goal,
        decreases gap(used as int, target as int),
    {
        if used == target {
            break;
        }
        let floor: i16 = if used > target {
            1
        } else {
            0
        };
        let mut best: usize = n;
        let mut j: usize = 0;
        while j < n
            invariant
                j <= n == normalized@.len(),
                best == (if busiest(normalized@, floor as int, j as nat) < 0 {
                    n as int
                } else {
                    busiest(normalized@, floor as int, j as nat)
                }),
            decreases n - j,
        {
            proof {
                lemma_busiest(normalized@, floor as int, j as nat);
            }
            if normalized[j] > floor && (best == n || normalized[j] >= normalized[best]) {
                best = j;
            }
            j = j + 1;
        }
        proof {
            lemma_busiest(normalized@, floor as int, n as nat);
            crate::zstd::distribution::lemma_no_neg(normalized@, n as int);
        }
        if best == n {
            break;
        }
        let ghost before = normalized@;
        let v = normalized[best];
        if used > target {
            normalized.set(best, v - 1);
            used = used - 1;
        } else {
            proof {
                assert(target <= n * target) by (nonlinear_arith)
                    requires
                        best < n,
                        target >= 0,
                ;
            }
            normalized.set(best, v + 1);
            used = used + 1;
        }
        proof {
            lemma_sum_update(before, n as int, best as int, normalized@[best as int]);
            assert(normalized@ == before.update(best as int, normalized@[best as int]));
        }
    }
    proof {
        lemma_settle_support(first, used0, target as int);
        if 0 < present(counts@, n as int) <= pow2(log as nat) {
            lemma_settle(first, used0, target as int);
            lemma_no_neg(normalized@, n as int);
        }
    }
    normalized
}

/// The position of the last of the first `k` symbols that holds points, or
/// 0 where none does.
pub open spec fn last_used(d: Seq<i16>, k: int) -> int
    decreases k,
{
    if k <= 0 {
        0
    } else if d[k - 1] != 0 {
        k - 1
    } else {
        last_used(d, k - 1)
    }
}

/// The field that carries `value` (a probability plus one) when
/// `remaining` points are still unassigned: `bit_length(remaining + 1)`
/// bits, one fewer for the smallest values, which is what lets the width
/// fall between powers of two.
pub open spec fn prob_field(value: nat, remaining: nat) -> (u32, u32) {
    let ceiling = remaining + 1;
    let bits = bit_length(ceiling);
    let threshold = pow2(bits) - 1 - ceiling;
    if value < threshold {
        (value as u32, (bits - 1) as u32)
    } else if value < pow2((bits - 1) as nat) {
        (value as u32, bits as u32)
    } else {
        ((value + threshold) as u32, bits as u32)
    }
}

/// A repeat count of further zero probabilities, in two-bit groups where a
/// full group (3) means another group follows.
pub open spec fn repeat_fields(run: nat) -> Seq<(u32, u32)>
    decreases run,
{
    if run >= 3 {
        seq![(3u32, 2u32)] + repeat_fields((run - 3) as nat)
    } else {
        seq![(run as u32, 2u32)]
    }
}

/// How many zero probabilities follow position `s`, up to `last`.
pub open spec fn zero_run(d: Seq<i16>, s: int, last: int) -> nat
    decreases last - s,
{
    if s + 1 <= last && 0 <= s + 1 < d.len() && d[s + 1] == 0 {
        1 + zero_run(d, s + 1, last)
    } else {
        0
    }
}

pub proof fn lemma_zero_run(d: Seq<i16>, s: int, last: int)
    requires
        s <= last,
    ensures
        s + zero_run(d, s, last) <= last,
    decreases last - s,
{
    if s + 1 <= last && 0 <= s + 1 < d.len() && d[s + 1] == 0 {
        lemma_zero_run(d, s + 1, last);
    }
}

/// The fields describing the probabilities from position `s` to `last`,
/// with `remaining` points unassigned before `s`.
pub open spec fn description_from(d: Seq<i16>, s: int, remaining: int, last: int) -> Seq<
    (u32, u32),
>
    decreases last + 1 - s,
{
    if s < 0 || s > last || s >= d.len() {
        Seq::empty()
    } else {
        let f = prob_field((d[s] + 1) as nat, remaining as nat);
        if d[s] == 0 {
            let run = zero_run(d, s, last);
            proof {
                lemma_zero_run(d, s, last);
            }
            seq![f] + repeat_fields(run) + description_from(d, s + run + 1, remaining, last)
        } else {
            seq![f] + description_from(d, s + 1, remaining - d[s], last)
        }
    }
}

/// A table description: the accuracy log less five in four bits, then each
/// probability up to the last that is not zero.
pub open spec fn description(d: Seq<i16>, log: nat) -> Seq<(u32, u32)> {
    seq![((log - 5) as u32, 4u32)] + description_from(d, 0, pow2(log) as int, last_used(d, d.len() as int))
}

proof fn lemma_prefix_sum(d: Seq<i16>, k: int, n: int)
    requires
        0 <= k <= n <= d.len(),
        forall|j: int| 0 <= j < d.len() ==> 0 <= #[trigger] d[j],
    ensures
        sum_pos(d, k) <= sum_pos(d, n),
    decreases n - k,
{
    if k < n {
        lemma_prefix_sum(d, k, n - 1);
    }
}

proof fn lemma_last_used(d: Seq<i16>, k: int)
    requires
        0 <= k <= d.len(),
        forall|j: int| 0 <= j < d.len() ==> 0 <= #[trigger] d[j],
    ensures
        0 <= last_used(d, k),
        k > 0 ==> last_used(d, k) < k,
        sum_pos(d, k) == sum_pos(d, last_used(d, k) + 1) || k == 0,
    decreases k,
{
    if k > 0 {
        lemma_last_used(d, k - 1);
    }
}

/// Writes the field for one probability.
fn push_prob(bw: &mut BitWriter, value: u32, remaining: u32)
    requires
        old(bw).wf(),
        value <= remaining + 1,
        remaining <= 0x4000,
        old(bw).len() + 16 <= 8 * (usize::MAX - 8),
    ensures
        final(bw).wf(),
        final(bw).value() == old(bw).value() + prob_field(value as nat, remaining as nat).0 * pow2(
            old(bw).len(),
        ),
        final(bw).len() == old(bw).len() + prob_field(value as nat, remaining as nat).1,
        prob_field(value as nat, remaining as nat).1 <= 16,
{
    let ceiling: u32 = remaining + 1;
    let bits: u32 = bit_len(ceiling as u64);
    proof {
        lemma2_to64();
        lemma_bit_length(ceiling as nat);
        if bits > 17 {
            vstd::arithmetic::power2::lemma_pow2_strictly_increases(16, (bits - 1) as nat);
        }
        vstd::bits::lemma_u32_shl_is_mul(1, bits);
        vstd::bits::lemma_u32_shl_is_mul(1, (bits - 1) as u32);
        vstd::arithmetic::power2::lemma_pow2_unfold(bits as nat);
    }
    let threshold: u32 = (1u32 << bits) - 1 - ceiling;
    if value < threshold {
        bw.push(value, bits - 1);
    } else if value < (1u32 << (bits - 1)) {
        bw.push(value, bits);
    } else {
        bw.push(value + threshold, bits);
    }
}

/// Writes the repeat count of a run of zero probabilities.
fn push_repeats(bw: &mut BitWriter, run: usize)
    requires
        old(bw).wf(),
        old(bw).len() + 2 * run + 2 <= 8 * (usize::MAX - 8),
    ensures
        final(bw).wf(),
        final(bw).value() == old(bw).value() + packed(repeat_fields(run as nat)) * pow2(
            old(bw).len(),
        ),
        final(bw).len() == old(bw).len() + width(repeat_fields(run as nat)),
        width(repeat_fields(run as nat)) <= 2 * run + 2,
{
    let ghost v0 = bw.value();
    let ghost l0 = bw.len();
    let ghost mut done: Seq<(u32, u32)> = Seq::empty();
    let mut r: usize = run;
    let mut more = true;
    proof {
        lemma2_to64();
    }
    while more
        invariant
            more ==> repeat_fields(run as nat) == done + repeat_fields(r as nat),
            !more ==> repeat_fields(run as nat) == done,
            r <= run,
            bw.wf(),
            bw.value() == v0 + packed(done) * pow2(l0),
            bw.len() == l0 + width(done),
            width(done) <= 2 * (run - r) + if more {
                0int
            } else {
                2int
            },
            l0 + 2 * run + 2 <= 8 * (usize::MAX - 8),
            pow2(2) == 4,
        decreases r + if more {
            1int
        } else {
            0int
        },
    {
        if r >= 3 {
            proof {
                lemma_push_tracks(v0, l0, done, (3u32, 2u32));
                assert(done + repeat_fields(r as nat) == done.push((3u32, 2u32)) + repeat_fields(
                    (r - 3) as nat,
                ));
                done = done.push((3u32, 2u32));
            }
            bw.push(3, 2);
            r = r - 3;
        } else {
            proof {
                lemma_push_tracks(v0, l0, done, (r as u32, 2u32));
                assert(done + repeat_fields(r as nat) == done.push((r as u32, 2u32)));
                done = done.push((r as u32, 2u32));
            }
            bw.push(r as u32, 2);
            more = false;
        }
    }
    proof {
        assert(packed(Seq::<(u32, u32)>::empty()) == 0);
    }
}

/// Writes a table description: the accuracy log, then each probability in
/// a field whose width shrinks as the remaining points run out, a zero
/// followed by a count of the zeroes after it.
pub fn write_description(bw: &mut BitWriter, distribution: &Vec<i16>, log: u32)
    requires
        old(bw).wf(),
        5 <= log <= 14,
        1 <= distribution@.len() <= 0x1_0000,
        forall|j: int| 0 <= j < distribution@.len() ==> 0 <= #[trigger] distribution@[j],
        sum_pos(distribution@, distribution@.len() as int) == pow2(log as nat),
        old(bw).len() + 32 * distribution@.len() + 64 <= 8 * (usize::MAX - 8),
    ensures
        final(bw).wf(),
        final(bw).value() == old(bw).value() + packed(description(distribution@, log as nat))
            * pow2(old(bw).len()),
        final(bw).len() == old(bw).len() + width(description(distribution@, log as nat)),
        width(description(distribution@, log as nat)) <= 4 + 32 * distribution@.len(),
{
    let ghost d = distribution@;
    let ghost v0 = bw.value();
    let ghost l0 = bw.len();
    let n = distribution.len();
    proof {
        lemma2_to64();
        vstd::arithmetic::power2::lemma_pow2_strictly_increases(log as nat, 15);
        lemma_push_tracks(v0, l0, Seq::empty(), ((log - 5) as u32, 4u32));
        assert(Seq::<(u32, u32)>::empty().push(((log - 5) as u32, 4u32)) == seq![
            ((log - 5) as u32, 4u32),
        ]);
        assert(packed(Seq::<(u32, u32)>::empty()) == 0);
        assert(width(Seq::<(u32, u32)>::empty()) == 0);
    }
    bw.push(log - 5, 4);
    let mut last: usize = 0;
    let mut k: usize = n;
    let mut found = false;
    while k > 0 && !found
        invariant
            k <= n == d.len(),
            d == distribution@,
            !found ==> last_used(d, n as int) == last_used(d, k as int) && last == 0,
            found ==> last == last_used(d, n as int),
        decreases k + if found {
            0int
        } else {
            1int
        },
    {
        if distribution[k - 1] != 0 {
            last = k - 1;
            found = true;
        } else {
            k = k - 1;
        }
    }
    proof {
        lemma_last_used(d, n as int);
        vstd::bits::lemma_u32_shl_is_mul(1, log);
    }
    let mut remaining: i32 = (1u32 << log) as i32;
    let mut symbol: usize = 0;
    let ghost mut done: Seq<(u32, u32)> = seq![((log - 5) as u32, 4u32)];
    while symbol <= last
        invariant
            d == distribution@,
            n == d.len(),
            1 <= n <= 0x1_0000,
            forall|j: int| 0 <= j < n ==> 0 <= #[trigger] d[j],
            sum_pos(d, n as int) == pow2(log as nat),
            last == last_used(d, n as int) < n,
            symbol <= last + 1,
            remaining == pow2(log as nat) - sum_pos(d, symbol as int),
            pow2(log as nat) <= 0x4000,
            bw.wf(),
            bw.value() == v0 + packed(done) * pow2(l0),
            bw.len() == l0 + width(done),
            width(done) <= 4 + 32 * symbol,
            l0 + 32 * n + 64 <= 8 * (usize::MAX - 8),
            description(d, log as nat) == done + description_from(
                d,
                symbol as int,
                remaining as int,
                last as int,
            ),
        decreases last + 1 - symbol,
    {
        proof {
            lemma_prefix_sum(d, symbol as int + 1, n as int);
        }
        let value: u32 = (distribution[symbol] + 1) as u32;
        let ghost f = prob_field(value as nat, remaining as nat);
        proof {
            lemma_push_tracks(v0, l0, done, f);
        }
        push_prob(bw, value, remaining as u32);
        proof {
            done = done.push(f);
        }
        remaining = remaining - distribution[symbol] as i32;
        if distribution[symbol] == 0 {
            let mut run: usize = 0;
            while symbol + 1 + run <= last && distribution[symbol + 1 + run] == 0
                invariant
                    d == distribution@,
                    symbol + run <= last < n == d.len(),
                    d[symbol as int] == 0,
                    zero_run(d, symbol as int, last as int) == run + zero_run(
                        d,
                        symbol + run,
                        last as int,
                    ),
                    sum_pos(d, symbol + 1 + run) == sum_pos(d, symbol as int),
                decreases last - symbol - run,
            {
                run = run + 1;
            }
            proof {
                lemma_push_tracks_all(v0, l0, done, repeat_fields(run as nat));
            }
            push_repeats(bw, run);
            proof {
                done = done + repeat_fields(run as nat);
                assert(description_from(d, symbol as int, remaining as int, last as int) == seq![f]
                    + repeat_fields(run as nat) + description_from(
                    d,
                    symbol + run + 1,
                    remaining as int,
                    last as int,
                ));
            }
            symbol = symbol + run;
        } else {
            proof {
                assert(description_from(d, symbol as int, remaining + d[symbol as int], last as int)
                    == seq![f] + description_from(d, symbol + 1, remaining as int, last as int));
            }
        }
        symbol = symbol + 1;
    }
}

/// Serializes a table description on its own.
pub fn describe(distribution: &Vec<i16>, log: u32) -> (r: Vec<u8>)
    requires
        5 <= log <= 14,
        1 <= distribution@.len() <= 0x1_0000,
        forall|j: int| 0 <= j < distribution@.len() ==> 0 <= #[trigger] distribution@[j],
        sum_pos(distribution@, distribution@.len() as int) == pow2(log as nat),
    ensures
        r@ == forward_bytes(description(distribution@, log as nat)),
        r@.len() <= 4 * distribution@.len() + 2,
{
    let mut bw = BitWriter::new();
    proof {
        lemma2_to64();
    }
    write_description(&mut bw, distribution, log);
    bw.finish_forward()
}

/// The base-2 logarithm of `value` in 1/256ths: the position of its top
/// bit, and the eight bits below it as a linear fraction of the octave.
pub open spec fn log2_fixed_spec(value: nat) -> nat {
    let msb = (bit_length(value) - 1) as nat;
    let fraction = if msb >= 8 {
        value / pow2((msb - 8) as nat)
    } else {
        value * pow2((8 - msb) as nat)
    };
    msb * 256 + fraction % 256
}

/// Base-2 logarithm in 1/256ths, interpolated linearly inside each octave.
///
/// Only used to compare two candidate prices, where an error of a
/// hundredth of a bit cannot change the answer.
pub fn log2_fixed(value: u32) -> (r: u32)
    requires
        value > 0,
    ensures
        r == log2_fixed_spec(value as nat),
        r < 0x2000,
{
    let msb: u32 = bit_len(value as u64) - 1;
    proof {
        lemma_bit_length(value as nat);
        lemma2_to64();
        if msb > 31 {
            vstd::arithmetic::power2::lemma_pow2_strictly_increases(32, msb as nat);
        }
    }
    let fraction: u32 = if msb >= 8 {
        proof {
            vstd::bits::lemma_u32_shr_is_div(value, (msb - 8) as u32);
        }
        value >> (msb - 8)
    } else {
        proof {
            vstd::arithmetic::power2::lemma_pow2_adds((msb + 1) as nat, (8 - msb) as nat);
            vstd::arithmetic::power2::lemma_pow2_strictly_increases((msb + 1) as nat, 9);
            assert(value * pow2((8 - msb) as nat) <= pow2((msb + 1) as nat) * pow2((8 - msb) as nat))
                by (nonlinear_arith)
                requires
                    value < pow2((msb + 1) as nat),
            ;
            vstd::bits::lemma_u32_shl_is_mul(value, (8 - msb) as u32);
        }
        value << (8 - msb)
    };
    proof {
        crate::bits::lemma_u32_bits(fraction);
    }
    msb * 256 + (fraction & 0xff)
}

/// At a power of two the fixed-point logarithm is exact.
pub proof fn law_log2_fixed_exact_at_powers(k: nat)
    requires
        k <= 31,
    ensures
        log2_fixed_spec(pow2(k)) == 256 * k,
{
    lemma_bit_length(pow2(k));
    vstd::arithmetic::power2::lemma_pow2_pos(k);
    let b = bit_length(pow2(k));
    if b - 1 > k {
        vstd::arithmetic::power2::lemma_pow2_strictly_increases(k, (b - 1) as nat);
    }
    if b - 1 < k {
        vstd::arithmetic::power2::lemma_pow2_strictly_increases((b - 1) as nat, k);
        vstd::arithmetic::power2::lemma_pow2_adds((b - 1) as nat, 1);
        if b < k {
            vstd::arithmetic::power2::lemma_pow2_strictly_increases(b, k);
        }
        lemma2_to64();
    }
    assert(b == k + 1);
    lemma2_to64();
    if k >= 8 {
        vstd::arithmetic::power2::lemma_pow2_adds((k - 8) as nat, 8);
        vstd::arithmetic::power2::lemma_pow2_pos((k - 8) as nat);
        vstd::arithmetic::div_mod::lemma_div_multiples_vanish(256, pow2((k - 8) as nat) as int);
        assert(pow2(k) == 256 * pow2((k - 8) as nat));
    } else {
        vstd::arithmetic::power2::lemma_pow2_adds(k, (8 - k) as nat);
    }
}

} // verus!
