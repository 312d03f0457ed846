//! Little-endian integers in byte sequences.
use crate::snappy::{le_int, pow256};
use vstd::prelude::*;

verus! {

pub proof fn lemma_pow256_monotone(a: nat, b: nat)
    requires
        a <= b,
    ensures
        pow256(a) <= pow256(b),
        pow256(a) >= 1,
    decreases b,
{
    if b > 0 {
        if a < b {
            lemma_pow256_monotone(a, (b - 1) as nat);
        } else {
            lemma_pow256_monotone((a - 1) as nat, (b - 1) as nat);
        }
    }
}

pub proof fn lemma_le_int_push(b: Seq<u8>, x: u8)
    ensures
        le_int(b.push(x)) == le_int(b) + x as nat * pow256(b.len()),
    decreases b.len(),
{
    if b.len() == 0 {
        assert(b.push(x).drop_first() == Seq::<u8>::empty());
        assert(le_int(Seq::<u8>::empty()) == 0);
        assert(b.push(x)[0] == x);
        assert(pow256(0) == 1);
    } else {
        assert(b.push(x).drop_first() == b.drop_first().push(x));
        assert(b.push(x)[0] == b[0]);
        lemma_le_int_push(b.drop_first(), x);
        assert(le_int(b.push(x)) == b[0] as nat + 256 * le_int(b.drop_first().push(x)));
        assert(le_int(b) == b[0] as nat + 256 * le_int(b.drop_first()));
        assert(256 * (x as nat * pow256((b.len() - 1) as nat)) == x as nat * pow256(b.len()))
            by (nonlinear_arith)
            requires
                pow256(b.len()) == 256 * pow256((b.len() - 1) as nat),
        ;
    }
}

/// Bytes spell a number below 256 to their count.
pub proof fn lemma_le_int_bound(s: Seq<u8>)
    ensures
        le_int(s) < pow256(s.len()),
    decreases s.len(),
{
    if s.len() > 0 {
        lemma_le_int_bound(s.drop_first());
        assert(le_int(s) < pow256(s.len())) by (nonlinear_arith)
            requires
                le_int(s) == s[0] as nat + 256 * le_int(s.drop_first()),
                le_int(s.drop_first()) + 1 <= pow256(s.drop_first().len()),
                pow256(s.len()) == 256 * pow256(s.drop_first().len()),
                s[0] < 256,
        ;
    }
}

/// The `k` low bytes of `v`, least significant first.
pub open spec fn le_bytes(v: nat, k: nat) -> Seq<u8>
    decreases k,
{
    if k == 0 {
        Seq::empty()
    } else {
        seq![(v % 256) as u8] + le_bytes(v / 256, (k - 1) as nat)
    }
}

/// There are `k` of them.
pub proof fn lemma_le_bytes_len(v: nat, k: nat)
    ensures
        le_bytes(v, k).len() == k,
    decreases k,
{
    if k > 0 {
        lemma_le_bytes_len(v / 256, (k - 1) as nat);
    }
}

/// Bytes that spell a number small enough for their count are its
/// little-endian bytes.
pub proof fn lemma_le_bytes_unique(s: Seq<u8>, v: nat)
    requires
        le_int(s) == v,
        v < pow256(s.len()),
    ensures
        s == le_bytes(v, s.len()),
    decreases s.len(),
{
    if s.len() > 0 {
        let t = s.drop_first();
        assert(v == s[0] as nat + 256 * le_int(t));
        assert(pow256(s.len()) == 256 * pow256(t.len()));
        assert(v % 256 == s[0] && v / 256 == le_int(t)) by {
            vstd::arithmetic::div_mod::lemma_fundamental_div_mod_converse(
                v as int,
                256,
                le_int(t) as int,
                s[0] as int,
            );
        }
        lemma_le_bytes_unique(t, v / 256);
        assert(s == seq![s[0]] + t);
    }
}

/// Appends the `count` low bytes of `v`, least significant first.
pub fn push_le(out: &mut Vec<u8>, v: u64, count: usize)
    requires
        count <= 8,
    ensures
        final(out)@.len() == old(out)@.len() + count,
        final(out)@.subrange(0, old(out)@.len() as int) == old(out)@,
        (v as nat) < pow256(count as nat) ==> le_int(
            final(out)@.subrange(old(out)@.len() as int, final(out)@.len() as int),
        ) == v,
        (v as nat) < pow256(count as nat) ==> final(out)@ == old(out)@ + le_bytes(
            v as nat,
            count as nat,
        ),
{
    let mut rest = v;
    let mut k: usize = 0;
    let ghost start = out@.len();
    proof {
        assert(out@.subrange(start as int, start as int) == Seq::<u8>::empty());
        assert(pow256(0) == 1);
    }
    while k < count
        invariant
            k <= count <= 8,
            start == old(out)@.len(),
            out@.len() == start + k,
            out@.subrange(0, start as int) == old(out)@,
            v as nat == rest as nat * pow256(k as nat) + le_int(
                out@.subrange(start as int, out@.len() as int),
            ),
        decreases count - k,
    {
        let ghost before = out@;
        let b = (rest & 0xff) as u8;
        assert(b == rest % 256 && (rest >> 8) == rest / 256) by {
            crate::bits::lemma_u64_bits(rest);
        }
        let ghost r0 = rest;
        out.push(b);
        rest = rest >> 8;
        proof {
            let seg = before.subrange(start as int, before.len() as int);
            assert(out@.subrange(start as int, out@.len() as int) == seg.push(b));
            lemma_le_int_push(seg, b);
            assert(seg.len() == k);
            assert(r0 as nat * pow256(k as nat) == rest as nat * pow256((k + 1) as nat) + b as nat
                * pow256(k as nat)) by (nonlinear_arith)
                requires
                    pow256((k + 1) as nat) == 256 * pow256(k as nat),
                    r0 == 256 * rest + b,
            ;
            assert(out@.subrange(0, start as int) == before.subrange(0, start as int));
        }
        k = k + 1;
    }
    proof {
        if (v as nat) < pow256(count as nat) {
            lemma_pow256_monotone(0, count as nat);
            if rest > 0 {
                assert(rest as nat * pow256(count as nat) >= pow256(count as nat)) by (nonlinear_arith)
                    requires
                        rest >= 1,
                ;
            }
            let seg = out@.subrange(start as int, out@.len() as int);
            lemma_le_bytes_unique(seg, v as nat);
            assert(out@ == old(out)@ + seg);
        }
    }
}

/// Reads `n` (at most eight) little-endian bytes at `input[pos..]`.
pub fn read_le(input: &[u8], pos: usize, n: usize) -> (v: u64)
    requires
        n <= 8,
        pos + n <= input.len(),
    ensures
        v == le_int(input@.subrange(pos as int, pos + n)),
{
    let mut v: u64 = 0;
    let mut scale: u64 = 1;
    let mut k: usize = 0;
    proof {
        assert(input@.subrange(pos as int, pos as int) == Seq::<u8>::empty());
        assert(pow256(0) == 1);
        assert(pow256(7) == 0x100_0000_0000_0000) by {
            reveal_with_fuel(pow256, 8);
        }
    }
    while k < n
        invariant
            k <= n <= 8,
            pos + n <= input.len(),
            v == le_int(input@.subrange(pos as int, pos + k)),
            k <= 7 ==> scale == pow256(k as nat),
            (v as nat) < pow256(k as nat),
            pow256(7) == 0x100_0000_0000_0000,
        decreases n - k,
    {
        let b = input[pos + k];
        proof {
            assert(input@.subrange(pos as int, pos + k + 1) == input@.subrange(
                pos as int,
                pos + k,
            ).push(b));
            lemma_le_int_push(input@.subrange(pos as int, pos + k), b);
            lemma_pow256_monotone(k as nat, 7);
        }
        assert(v + b as u64 * scale < scale * 256) by (nonlinear_arith)
            requires
                v < scale,
                b < 256,
        ;
        assert((v as nat) + (b as nat) * pow256(k as nat) < pow256((k + 1) as nat)) by (nonlinear_arith)
            requires
                (v as nat) < pow256(k as nat),
                b < 256,
                pow256((k + 1) as nat) == 256 * pow256(k as nat),
        ;
        v = v + b as u64 * scale;
        if k < 7 {
            proof {
                lemma_pow256_monotone((k + 1) as nat, 7);
            }
            scale = scale * 256;
        }
        k = k + 1;
    }
    v
}

} // verus!
