//! Forward bit writer for the backward-read bitstreams of RFC 8478.
//!
//! Zstandard's FSE and Huffman bitstreams are written low bit first, in
//! increasing byte order, but read from the last byte backwards. A decoder
//! finds its starting point by skipping the padding zeroes and the single
//! set bit that the encoder appends after the final payload bit, so a field
//! written last is read first. Callers therefore push fields in the reverse
//! of the order the decoder consumes them.
//!
//! The writer is modelled as one little-endian number and its width in
//! bits: pushing a field of `n` bits adds it above everything written so
//! far.
use crate::le::{le_bytes, lemma_le_bytes_unique, lemma_le_int_bound, lemma_le_int_push};
use crate::snappy::{le_int, pow256};
use vstd::arithmetic::div_mod::lemma_fundamental_div_mod;
use vstd::arithmetic::power2::{lemma2_to64, lemma_pow2_adds, pow2};
use vstd::bits::lemma_u64_shl_is_mul;
use vstd::prelude::*;

verus! {

/// The number that a run of fields spells when each is placed above the
/// ones before it.
pub open spec fn packed(fields: Seq<(u32, u32)>) -> int
    decreases fields.len(),
{
    if fields.len() == 0 {
        0
    } else {
        packed(fields.drop_last()) + fields.last().0 * pow2(width(fields.drop_last()))
    }
}

/// The total width in bits of a run of fields.
pub open spec fn width(fields: Seq<(u32, u32)>) -> nat
    decreases fields.len(),
{
    if fields.len() == 0 {
        0
    } else {
        width(fields.drop_last()) + fields.last().1 as nat
    }
}

/// Every field is at most 28 bits wide and its value fits in its width.
pub open spec fn fields_fit(fields: Seq<(u32, u32)>) -> bool {
    forall|i: int|
        0 <= i < fields.len() ==> #[trigger] fields[i].1 <= 28 && (fields[i].0 as int) < pow2(
            fields[i].1 as nat,
        )
}

/// The bytes of a finished, end-marked stream of `fields`: the fields, one
/// set bit above them, and zero padding to a whole byte.
pub open spec fn marked_bytes(fields: Seq<(u32, u32)>) -> Seq<u8> {
    le_bytes((packed(fields) + pow2(width(fields))) as nat, (width(fields) + 8) / 8)
}

/// The bytes of `fields` with no end marker, padded to a whole byte.
pub open spec fn forward_bytes(fields: Seq<(u32, u32)>) -> Seq<u8> {
    le_bytes(packed(fields) as nat, (width(fields) + 7) / 8)
}

/// Fitting fields spell a number below two to their width.
pub proof fn lemma_packed_bound(fields: Seq<(u32, u32)>)
    requires
        fields_fit(fields),
    ensures
        0 <= packed(fields) < pow2(width(fields)),
    decreases fields.len(),
{
    if fields.len() > 0 {
        let init = fields.drop_last();
        let f = fields.last();
        assert(fields_fit(init)) by {
            assert forall|i: int| 0 <= i < init.len() implies #[trigger] init[i].1 <= 28 && (
            init[i].0 as int) < pow2(init[i].1 as nat) by {
                assert(init[i] == fields[i]);
            }
        }
        assert(f == fields[fields.len() - 1]);
        lemma_packed_bound(init);
        lemma_pow2_adds(width(init), f.1 as nat);
        assert(packed(init) + f.0 * pow2(width(init)) < pow2(width(init)) * pow2(f.1 as nat))
            by (nonlinear_arith)
            requires
                0 <= packed(init) < pow2(width(init)),
                f.0 + 1 <= pow2(f.1 as nat),
        ;
    } else {
        lemma2_to64();
    }
}

/// Every field of a run fits, one field at a time.
pub proof fn lemma_fit_push(fields: Seq<(u32, u32)>, f: (u32, u32))
    requires
        fields_fit(fields),
        f.1 <= 28,
        (f.0 as int) < pow2(f.1 as nat),
    ensures
        fields_fit(fields.push(f)),
{
    assert forall|i: int| 0 <= i < fields.push(f).len() implies #[trigger] fields.push(f)[i].1 <= 28
        && (fields.push(f)[i].0 as int) < pow2(fields.push(f)[i].1 as nat) by {
        if i < fields.len() {
            assert(fields.push(f)[i] == fields[i]);
        }
    }
}

/// `pow256` is a power of two.
pub proof fn lemma_pow256_pow2(k: nat)
    ensures
        pow256(k) == pow2(8 * k),
    decreases k,
{
    if k > 0 {
        lemma_pow256_pow2((k - 1) as nat);
        lemma_pow2_adds(8 * (k - 1) as nat, 8);
        lemma2_to64();
        assert(8 * k == 8 * (k - 1) as nat + 8);
    } else {
        lemma2_to64();
    }
}

/// Pushing one more field onto a run.
pub proof fn lemma_packed_push(fields: Seq<(u32, u32)>, f: (u32, u32))
    ensures
        packed(fields.push(f)) == packed(fields) + f.0 * pow2(width(fields)),
        width(fields.push(f)) == width(fields) + f.1,
{
    assert(fields.push(f).drop_last() == fields);
}

/// A writer that held `v0` in `l0` bits and has since taken `done` holds
/// `done` above `v0`; one more field goes on top of it.
pub proof fn lemma_push_tracks(v0: int, l0: nat, done: Seq<(u32, u32)>, f: (u32, u32))
    ensures
        v0 + packed(done) * pow2(l0) + f.0 * pow2(l0 + width(done)) == v0 + packed(done.push(f))
            * pow2(l0),
        width(done.push(f)) == width(done) + f.1,
{
    lemma_packed_push(done, f);
    lemma_pow2_adds(l0, width(done));
    assert(packed(done) * pow2(l0) + f.0 * (pow2(l0) * pow2(width(done))) == (packed(done) + f.0
        * pow2(width(done))) * pow2(l0)) by (nonlinear_arith);
}

/// Two runs of fields, one after the other.
pub proof fn lemma_packed_append(a: Seq<(u32, u32)>, b: Seq<(u32, u32)>)
    ensures
        packed(a + b) == packed(a) + packed(b) * pow2(width(a)),
        width(a + b) == width(a) + width(b),
    decreases b.len(),
{
    if b.len() == 0 {
        assert(a + b == a);
    } else {
        lemma_packed_append(a, b.drop_last());
        assert((a + b).drop_last() == a + b.drop_last());
        lemma_pow2_adds(width(a), width(b.drop_last()));
        assert(packed(b.drop_last()) * pow2(width(a)) + b.last().0 * pow2(width(a) + width(
            b.drop_last(),
        )) == (packed(b.drop_last()) + b.last().0 * pow2(width(b.drop_last()))) * pow2(width(a)))
            by (nonlinear_arith)
            requires
                pow2(width(a) + width(b.drop_last())) == pow2(width(a)) * pow2(
                    width(b.drop_last()),
                ),
        ;
    }
}

/// A writer that held `v0` in `l0` bits and has since taken `done` holds
/// `done` followed by `more` once it takes `more` too.
pub proof fn lemma_push_tracks_all(v0: int, l0: nat, done: Seq<(u32, u32)>, more: Seq<(u32, u32)>)
    ensures
        v0 + packed(done) * pow2(l0) + packed(more) * pow2(l0 + width(done)) == v0 + packed(done
            + more) * pow2(l0),
        width(done + more) == width(done) + width(more),
{
    lemma_packed_append(done, more);
    lemma_pow2_adds(l0, width(done));
    assert(packed(done) * pow2(l0) + packed(more) * (pow2(l0) * pow2(width(done))) == (packed(
        done,
    ) + packed(more) * pow2(width(done))) * pow2(l0)) by (nonlinear_arith);
}

/// Accumulates bits into a byte stream, least significant bit first.
pub struct BitWriter {
    out: Vec<u8>,
    container: u64,
    bits: u32,
}

impl BitWriter {
    /// The number written so far, pending bits included.
    pub closed spec fn value(&self) -> int {
        le_int(self.out@) + self.container * pow256(self.out@.len())
    }

    /// How many bits have been written so far.
    pub closed spec fn len(&self) -> nat {
        8 * self.out@.len() + self.bits as nat
    }

    /// Fewer than eight bits are pending, and they fit in their count.
    pub closed spec fn wf(&self) -> bool {
        &&& self.bits < 8
        &&& self.container < pow2(self.bits as nat)
    }

    /// What has been written fits in the bits written.
    pub proof fn lemma_value_bound(&self)
        requires
            self.wf(),
        ensures
            0 <= self.value() < pow2(self.len()),
    {
        lemma_le_int_bound(self.out@);
        lemma_pow256_pow2(self.out@.len());
        lemma_pow2_adds(8 * self.out@.len(), self.bits as nat);
        assert(le_int(self.out@) + self.container * pow256(self.out@.len()) < pow256(self.out@.len())
            * pow2(self.bits as nat)) by (nonlinear_arith)
            requires
                le_int(self.out@) + 1 <= pow256(self.out@.len()),
                self.container + 1 <= pow2(self.bits as nat),
        ;
    }

    pub fn new() -> (r: Self)
        ensures
            r.wf(),
            r.value() == 0,
            r.len() == 0,
    {
        proof {
            lemma2_to64();
        }
        BitWriter { out: Vec::new(), container: 0, bits: 0 }
    }

    /// Appends the low `nbits` of `value`.
    ///
    /// No field is wider than 28 bits, so the accumulator always takes a
    /// whole field on top of the at most seven bits left over.
    pub fn push(&mut self, value: u32, nbits: u32)
        requires
            old(self).wf(),
            nbits <= 28,
            (value as int) < pow2(nbits as nat),
            old(self).len() + nbits <= 8 * (usize::MAX - 8),
        ensures
            final(self).wf(),
            final(self).value() == old(self).value() + value * pow2(old(self).len()),
            final(self).len() == old(self).len() + nbits,
    {
        let ghost target = self.value() + value * pow2(self.len());
        let ghost total = self.len() + nbits;
        let ghost n0 = self.out@.len();
        proof {
            let b = self.bits as u64;
            let c = self.container;
            let y = value as u64;
            lemma2_to64();
            assert(pow2(b as nat) <= 128) by {
                if b < 7 {
                    vstd::arithmetic::power2::lemma_pow2_strictly_increases(b as nat, 7);
                }
            }
            assert(pow2(nbits as nat) <= 0x1000_0000) by {
                if nbits < 28 {
                    vstd::arithmetic::power2::lemma_pow2_strictly_increases(nbits as nat, 28);
                }
            }
            assert(y * pow2(b as nat) <= 0x1000_0000 * 128) by (nonlinear_arith)
                requires
                    y < 0x1000_0000,
                    pow2(b as nat) <= 128,
            ;
            lemma_u64_shl_is_mul(y, b);
            lemma_u64_shl_is_mul(1, b);
            crate::bits::lemma_or_above(c, y, b);
            lemma_pow2_adds(b as nat, nbits as nat);
            lemma_pow2_adds(8 * n0, b as nat);
            lemma_pow256_pow2(n0);
            assert(c + y * pow2(b as nat) < pow2((b + nbits) as nat)) by (nonlinear_arith)
                requires
                    c < pow2(b as nat),
                    y + 1 <= pow2(nbits as nat),
                    pow2((b + nbits) as nat) == pow2(b as nat) * pow2(nbits as nat),
            ;
            assert((c + y * pow2(b as nat)) * pow256(n0) == c * pow256(n0) + y * pow2(
                (8 * n0 + b) as nat,
            )) by (nonlinear_arith)
                requires
                    pow2((8 * n0 + b) as nat) == pow256(n0) * pow2(b as nat),
            ;
        }
        self.container = self.container | ((value as u64) << (self.bits as u64));
        self.bits = self.bits + nbits;
        while self.bits >= 8
            invariant
                self.bits < 36,
                self.container < pow2(self.bits as nat),
                self.value() == target,
                self.len() == total,
                n0 <= self.out@.len(),
                8 * (self.out@.len() - n0) + self.bits < 36,
                n0 + 5 < usize::MAX,
            decreases self.bits,
        {
            let ghost c = self.container;
            let ghost n = self.out@.len();
            let ghost before = self.out@;
            proof {
                crate::bits::lemma_u64_bits(c);
            }
            self.out.push(self.container as u8);
            self.container = self.container >> 8;
            self.bits = self.bits - 8;
            proof {
                lemma_le_int_push(before, (c % 256) as u8);
                lemma_fundamental_div_mod(c as int, 256);
                assert(pow256(n + 1) == 256 * pow256(n));
                assert((c % 256) * pow256(n) + (c / 256) * pow256(n + 1) == c * pow256(n))
                    by (nonlinear_arith)
                    requires
                        pow256(n + 1) == 256 * pow256(n),
                        c == 256 * (c / 256) + c % 256,
                ;
                lemma2_to64();
                lemma_pow2_adds((self.bits) as nat, 8);
                assert(c / 256 < pow2(self.bits as nat)) by (nonlinear_arith)
                    requires
                        c < pow2(self.bits as nat) * 256,
                ;
            }
        }
    }

    /// Flushes any partial byte and returns the stream with no end marker.
    ///
    /// A table description is read forwards and reports its own length, so
    /// it needs no marker and leaves the last byte's spare bits unused.
    pub fn finish_forward(self) -> (r: Vec<u8>)
        requires
            self.wf(),
        ensures
            le_int(r@) == self.value(),
            r@.len() == (self.len() + 7) / 8,
            r@ == le_bytes(self.value() as nat, (self.len() + 7) / 8),
    {
        let mut out = self.out;
        let ghost before = out@;
        if self.bits > 0 {
            proof {
                lemma2_to64();
                if self.bits < 7 {
                    vstd::arithmetic::power2::lemma_pow2_strictly_increases(self.bits as nat, 7);
                }
                crate::bits::lemma_u64_bits(self.container);
            }
            out.push(self.container as u8);
            proof {
                lemma_le_int_push(before, self.container as u8);
                assert(self.container as u8 == self.container);
            }
        } else {
            proof {
                lemma2_to64();
                assert(self.container == 0);
                assert(self.container * pow256(before.len()) == 0);
            }
        }
        proof {
            self.lemma_value_bound();
            lemma_pow256_pow2(out@.len());
            let l = self.len();
            if 8 * out@.len() > l {
                vstd::arithmetic::power2::lemma_pow2_strictly_increases(l, 8 * out@.len());
            }
            lemma_le_bytes_unique(out@, self.value() as nat);
        }
        out
    }

    /// Appends the end marker, a single set bit followed by zero padding to
    /// the next byte boundary, and returns the finished stream.
    pub fn finish(self) -> (r: Vec<u8>)
        requires
            self.wf(),
            self.len() + 1 <= 8 * (usize::MAX - 8),
        ensures
            le_int(r@) == self.value() + pow2(self.len()),
            r@.len() == (self.len() + 8) / 8,
            r@ == le_bytes((self.value() + pow2(self.len())) as nat, (self.len() + 8) / 8),
    {
        let mut w = self;
        proof {
            lemma2_to64();
        }
        w.push(1, 1);
        w.finish_forward()
    }
}

} // verus!
