//! FSE-compressed Huffman weight header (RFC 8478, section 4.2.1.2).
//!
//! The direct header packs one weight per nibble and tops out at 128
//! symbols, so any literal above 128 forces this form. The weights are
//! coded against a distribution built for them, written out as a table
//! description, and then entropy-coded by two states sharing that one
//! table: the first takes the even-indexed weights and the second the odd
//! ones.
use super::bitstream::{
    fields_fit, forward_bytes, lemma_fit_push, lemma_push_tracks, marked_bytes, packed, width,
    BitWriter,
};
use super::distribution::{describe, description, normalize, normalized_counts, present};
use super::sequences::{encoder_ok, step_for};
use crate::fse::{has_cell, sum_pos, Encoder};
use vstd::arithmetic::power2::{lemma2_to64, pow2};
use vstd::prelude::*;

verus! {

/// Accuracy log for the weight distribution: the format's maximum here.
pub const LOG: u32 = 6;

/// Number of distinct weight values, since a weight is at most 11.
pub const ALPHABET: usize = 12;

/// The header byte states the compressed size in seven bits.
pub const MAX_SIZE: usize = 127;

/// The fields for the weights before position `i`, last first, each the
/// bits of the state update of the state its parity selects; then the two
/// states, the odd one first.
pub open spec fn weight_fields(w: Seq<u8>, e: Encoder, i: int, s0: u16, s1: u16) -> Seq<(u32, u32)>
    decreases i,
{
    if i <= 0 {
        seq![(s1 as u32, LOG), (s0 as u32, LOG)]
    } else {
        let idx = i - 1;
        let st = if idx % 2 == 0 {
            s0
        } else {
            s1
        };
        let step = step_for(e, w[idx] as u32, st);
        seq![((st - step.baseline) as u32, step.bits)] + weight_fields(
            w,
            e,
            idx,
            if idx % 2 == 0 {
                step.state
            } else {
                s0
            },
            if idx % 2 == 1 {
                step.state
            } else {
                s1
            },
        )
    }
}

/// The fields of the weight stream: the two states start on the last two
/// weights, and no bits are written for those.
pub open spec fn stream_fields(w: Seq<u8>, e: Encoder) -> Seq<(u32, u32)> {
    let n = w.len() as int;
    let a = e.initial@[w[n - 1] as int];
    let b = e.initial@[w[n - 2] as int];
    let s0 = if (n - 1) % 2 == 0 {
        a
    } else {
        b
    };
    let s1 = if (n - 1) % 2 == 1 {
        a
    } else {
        b
    };
    weight_fields(w, e, n - 2, s0, s1)
}

/// Every weight has a cell in the encoder's table.
pub open spec fn weights_codable(w: Seq<u8>, e: Encoder) -> bool {
    forall|i: int| 0 <= i < w.len() ==> #[trigger] w[i] < ALPHABET && has_cell(e.table@, w[i] as int)
}

/// Entropy-codes the weight series with two interleaved states.
///
/// The decoder reads backwards, so this walks the series from the end: the
/// initial states go in last so they come out first.
pub fn write_stream(weights: &[u8], encoder: &Encoder) -> (r: Vec<u8>)
    requires
        2 <= weights@.len() <= 0xffff_ffff,
        encoder_ok(*encoder, ALPHABET as nat, LOG as nat),
        weights_codable(weights@, *encoder),
    ensures
        r@ == marked_bytes(stream_fields(weights@, *encoder)),
        r@.len() <= weights@.len() + 4,
{
    let count = weights.len();
    let mut bw = BitWriter::new();
    let a = encoder.initial_state(weights[count - 1] as u32);
    let b = encoder.initial_state(weights[count - 2] as u32);
    let mut s0: u16 = if (count - 1) % 2 == 0 {
        a
    } else {
        b
    };
    let mut s1: u16 = if (count - 1) % 2 == 1 {
        a
    } else {
        b
    };
    let ghost e = *encoder;
    let ghost w = weights@;
    let ghost mut done: Seq<(u32, u32)> = Seq::empty();
    proof {
        lemma2_to64();
        assert(packed(done) == 0 && width(done) == 0);
    }
    let mut index: usize = count - 2;
    while index > 0
        invariant
            e == *encoder,
            w == weights@,
            count == w.len(),
            2 <= count <= 0xffff_ffff,
            count <= usize::MAX,
            index <= count - 2,
            encoder_ok(e, ALPHABET as nat, LOG as nat),
            weights_codable(w, e),
            s0 < pow2(LOG as nat),
            s1 < pow2(LOG as nat),
            pow2(0) == 1,
            bw.wf(),
            bw.value() == packed(done),
            bw.len() == width(done),
            width(done) <= 6 * (count - 2 - index),
            stream_fields(w, e) == done + weight_fields(w, e, index as int, s0, s1),
        decreases index,
    {
        index = index - 1;
        let weight = weights[index];
        let slot = index % 2;
        let st = if slot == 0 {
            s0
        } else {
            s1
        };
        proof {
            lemma2_to64();
            crate::fse::lemma_rows(weight as int, st as int, 0, 0, 64, 12);
        }
        let step = encoder.step(weight as u32, st);
        let ghost f = ((st - step.baseline) as u32, step.bits);
        proof {
            assert(crate::fse::step_ok(e.table@, step, weight as int, st as int));
            assert(e.table@[step.state as int].bits <= LOG);
            lemma_push_tracks(0, 0, done, f);
        }
        bw.push((st - step.baseline) as u32, step.bits);
        proof {
            assert(weight_fields(w, e, index + 1, s0, s1) == seq![f] + weight_fields(
                w,
                e,
                index as int,
                if slot == 0 {
                    step.state
                } else {
                    s0
                },
                if slot == 1 {
                    step.state
                } else {
                    s1
                },
            ));
            assert(done + (seq![f] + weight_fields(
                w,
                e,
                index as int,
                if slot == 0 {
                    step.state
                } else {
                    s0
                },
                if slot == 1 {
                    step.state
                } else {
                    s1
                },
            )) == done.push(f) + weight_fields(
                w,
                e,
                index as int,
                if slot == 0 {
                    step.state
                } else {
                    s0
                },
                if slot == 1 {
                    step.state
                } else {
                    s1
                },
            ));
            done = done.push(f);
        }
        if slot == 0 {
            s0 = step.state;
        } else {
            s1 = step.state;
        }
    }
    proof {
        let f0 = (s1 as u32, LOG);
        let f1 = (s0 as u32, LOG);
        lemma_push_tracks(0, 0, done, f0);
        lemma_push_tracks(0, 0, done.push(f0), f1);
        assert(done.push(f0).push(f1) == done + seq![f0, f1]);
    }
    bw.push(s1 as u32, LOG);
    bw.push(s0 as u32, LOG);
    bw.finish()
}

/// How many of the first `k` weights equal `v`.
pub open spec fn count_of(w: Seq<u8>, v: int, k: int) -> nat
    decreases k,
{
    if k <= 0 {
        0
    } else {
        count_of(w, v, k - 1) + if w[k - 1] == v {
            1nat
        } else {
            0nat
        }
    }
}

/// How often each weight value occurs in the series.
pub open spec fn weight_counts(w: Seq<u8>) -> Seq<u32> {
    Seq::new(ALPHABET as nat, |v: int| count_of(w, v, w.len() as int) as u32)
}

/// The series can take this form at all: two or more weights, each a
/// weight, and at least two different ones.
pub open spec fn fse_codable(w: Seq<u8>) -> bool {
    &&& w.len() >= 2
    &&& forall|i: int| 0 <= i < w.len() ==> #[trigger] w[i] < ALPHABET
    &&& present(weight_counts(w), ALPHABET as int) >= 2
}

/// The header body for `w` coded with `e`: the description of the
/// normalized distribution, then the weight stream.
pub open spec fn header_body(w: Seq<u8>, e: Encoder) -> Seq<u8> {
    forward_bytes(description(normalized_counts(weight_counts(w), LOG as nat), LOG as nat))
        + marked_bytes(stream_fields(w, e))
}

pub proof fn lemma_count_of_bound(w: Seq<u8>, v: int, k: int)
    requires
        0 <= k <= w.len(),
    ensures
        count_of(w, v, k) <= k,
    decreases k,
{
    if k > 0 {
        lemma_count_of_bound(w, v, k - 1);
    }
}

proof fn lemma_present_bound(c: Seq<u32>, k: int)
    requires
        0 <= k,
    ensures
        present(c, k) <= k,
    decreases k,
{
    if k > 0 {
        lemma_present_bound(c, k - 1);
    }
}

/// Compresses `weights` into a header body, or `None` where the series
/// cannot take this form or its body would not fit in 127 bytes.
pub fn compress(weights: &[u8]) -> (r: Option<Vec<u8>>)
    requires
        weights@.len() <= 0xffff_ffff,
    ensures
        !fse_codable(weights@) ==> r is None,
        fse_codable(weights@) ==> exists|e: Encoder|
            {
                &&& encoder_ok(e, ALPHABET as nat, LOG as nat)
                &&& weights_codable(weights@, e)
                &&& (r is Some <==> header_body(weights@, e).len() <= MAX_SIZE)
                &&& (r is Some ==> r->Some_0@ == header_body(weights@, e))
            },
{
    let n = weights.len();
    let ghost w = weights@;
    if n < 2 {
        return None;
    }
    let mut counts: Vec<u32> = vec![0u32; ALPHABET];
    let mut i: usize = 0;
    while i < n
        invariant
            n == w.len() <= 0xffff_ffff,
            w == weights@,
            i <= n,
            counts@.len() == ALPHABET,
            forall|k: int| 0 <= k < i ==> #[trigger] w[k] < ALPHABET,
            forall|v: int| 0 <= v < ALPHABET ==> #[trigger] counts@[v] == count_of(w, v, i as int),
        decreases n - i,
    {
        let weight = weights[i] as usize;
        if weight >= ALPHABET {
            return None;
        }
        proof {
            lemma_count_of_bound(w, weight as int, i as int);
        }
        counts.set(weight, counts[weight] + 1);
        i = i + 1;
    }
    proof {
        assert(counts@ == weight_counts(w));
    }
    let mut distinct: usize = 0;
    let mut k: usize = 0;
    while k < ALPHABET
        invariant
            k <= ALPHABET,
            counts@.len() == ALPHABET,
            distinct == present(counts@, k as int),
            distinct <= k,
        decreases ALPHABET - k,
    {
        if counts[k] > 0 {
            distinct = distinct + 1;
        }
        k = k + 1;
    }
    if distinct < 2 {
        return None;
    }
    proof {
        lemma_present_bound(counts@, ALPHABET as int);
        lemma2_to64();
    }
    let normalized = normalize(&counts, LOG);
    let mut out = describe(&normalized, LOG);
    let encoder = Encoder::new(&normalized, LOG);
    proof {
        assert forall|j: int| 0 <= j < w.len() implies #[trigger] w[j] < ALPHABET && has_cell(
            encoder.table@,
            w[j] as int,
        ) by {
            let v = w[j] as int;
            assert(count_of(w, v, w.len() as int) >= 1) by {
                lemma_count_of_pos(w, v, j, w.len() as int);
            }
            assert(counts@[v] > 0);
            assert(normalized@[v] != 0);
        }
    }
    let stream = write_stream(weights, &encoder);
    let ghost head = out@;
    let mut j: usize = 0;
    while j < stream.len()
        invariant
            j <= stream@.len() <= w.len() + 4,
            head.len() <= 4 * ALPHABET + 2,
            w.len() <= 0xffff_ffff,
            w.len() <= usize::MAX,
            out@ == head + stream@.take(j as int),
        decreases stream@.len() - j,
    {
        out.push(stream[j]);
        j = j + 1;
        proof {
            assert(stream@.take(j as int) == stream@.take(j - 1).push(stream@[j - 1]));
        }
    }
    proof {
        assert(stream@.take(stream@.len() as int) == stream@);
        assert(out@ == header_body(w, encoder));
    }
    if out.len() <= MAX_SIZE {
        Some(out)
    } else {
        None
    }
}

proof fn lemma_count_of_pos(w: Seq<u8>, v: int, j: int, k: int)
    requires
        0 <= j < k <= w.len(),
        w[j] == v,
    ensures
        count_of(w, v, k) >= 1,
    decreases k,
{
    if k - 1 > j {
        lemma_count_of_pos(w, v, j, k - 1);
    }
}

} // verus!
