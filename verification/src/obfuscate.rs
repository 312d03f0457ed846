//! The key-reconstruction programs of the embedded-key mode: a random
//! straight-line program of invertible byte operations on a 32-byte
//! accumulator, and the seed that the program turns back into the key.
//! Running the program forward on the seed gives the key:
//! `F(F^{-1}(key)) == key`. This is obfuscation, not security.

use crate::crypt::keygen::{xor32, xor_seq};
use crate::snappy::le_int;
use vstd::prelude::*;

verus! {

/// One invertible operation on the 32-byte accumulator.
#[derive(Debug, Clone, Copy)]
pub enum Op {
    /// `a[i] ^= c[i]`; its own inverse.
    Xor([u8; 32]),
    /// `a[i] = a[i].wrapping_add(c[i])`; undone by `wrapping_sub`.
    Add([u8; 32]),
    /// `a[i] = a[i].rotate_left(k)`; undone by `rotate_right(k)`.
    Rotl(u32),
    /// `out[i] = a[p[i]]` for a permutation `p`; undone by its inverse.
    Perm([u8; 32]),
    /// `a[i] = a[31 - i]`; its own inverse.
    Reverse,
}

/// `x` rotated left by `k` bits (modulo 8).
pub open spec fn rotl8(x: u8, k: u32) -> u8 {
    let r = k % 8;
    if r == 0 {
        x
    } else {
        ((x << r) | (x >> (8 - r) as u32)) as u8
    }
}

/// `x` rotated right by `k` bits (modulo 8).
pub open spec fn rotr8(x: u8, k: u32) -> u8 {
    let r = k % 8;
    if r == 0 {
        x
    } else {
        ((x >> r) | (x << (8 - r) as u32)) as u8
    }
}

/// `p` is a permutation of `0..32`.
pub open spec fn is_perm(p: Seq<u8>) -> bool {
    &&& p.len() == 32
    &&& forall|i: int| 0 <= i < 32 ==> #[trigger] p[i] < 32
    &&& forall|i: int, j: int| 0 <= i < 32 && 0 <= j < 32 && i != j ==> p[i] != p[j]
    &&& forall|v: int| 0 <= v < 32 ==> #[trigger] occurs(p, v)
}

/// Some position before 32 of `p` holds `v`.
pub open spec fn occurs(p: Seq<u8>, v: int) -> bool {
    exists|i: int| 0 <= i < 32 && #[trigger] p[i] == v
}

/// Every entry of `p` indexes the accumulator.
pub open spec fn in_range(p: Seq<u8>) -> bool {
    p.len() == 32 && forall|i: int| 0 <= i < 32 ==> #[trigger] p[i] < 32
}

/// The last position before `k` at which `p` holds `v`, or `0` if none.
pub open spec fn last_index(p: Seq<u8>, v: int, k: int) -> u8
    decreases k,
{
    if k <= 0 {
        0
    } else if p[k - 1] == v {
        (k - 1) as u8
    } else {
        last_index(p, v, k - 1)
    }
}

/// What `inverse_perm` computes: `inv[p[i]] = i`, later positions winning.
pub open spec fn perm_inverse(p: Seq<u8>) -> Seq<u8> {
    Seq::new(32, |v: int| last_index(p, v, 32))
}

/// The operation's array constant, or the empty sequence.
pub open spec fn op_perm(op: Op) -> Seq<u8> {
    match op {
        Op::Perm(p) => p@,
        _ => Seq::empty(),
    }
}

/// The operation can be applied: a permutation's entries index the
/// accumulator.
pub open spec fn op_ok(op: Op) -> bool {
    match op {
        Op::Perm(p) => in_range(p@),
        _ => true,
    }
}

/// The operation is invertible: a permutation really is one.
pub open spec fn op_wf(op: Op) -> bool {
    match op {
        Op::Perm(p) => is_perm(p@),
        _ => true,
    }
}

/// The accumulator after `op`.
pub open spec fn fwd(op: Op, a: Seq<u8>) -> Seq<u8> {
    match op {
        Op::Xor(c) => Seq::new(32, |i: int| a[i] ^ c@[i]),
        Op::Add(c) => Seq::new(32, |i: int| vstd::wrapping::u8_specs::wrapping_add(a[i], c@[i])),
        Op::Rotl(k) => Seq::new(32, |i: int| rotl8(a[i], k)),
        Op::Perm(p) => Seq::new(32, |i: int| a[p@[i] as int]),
        Op::Reverse => Seq::new(32, |i: int| a[31 - i]),
    }
}

/// The accumulator after the inverse of `op`.
pub open spec fn inv(op: Op, a: Seq<u8>) -> Seq<u8> {
    match op {
        Op::Xor(c) => Seq::new(32, |i: int| a[i] ^ c@[i]),
        Op::Add(c) => Seq::new(32, |i: int| vstd::wrapping::u8_specs::wrapping_sub(a[i], c@[i])),
        Op::Rotl(k) => Seq::new(32, |i: int| rotr8(a[i], k)),
        Op::Perm(p) => Seq::new(32, |i: int| a[perm_inverse(p@)[i] as int]),
        Op::Reverse => Seq::new(32, |i: int| a[31 - i]),
    }
}

/// Rotating left by `k` moves bit `j` of a byte to bit `(j + k) % 8`: bit
/// `j` of the result is bit `(j + 8 - k % 8) % 8` of the input.
pub proof fn law_rotl8_bits(x: u8, k: u32, j: u32)
    requires
        j < 8,
    ensures
        (rotl8(x, k) >> j) & 1 == (x >> ((j + 8 - k % 8) % 8) as u32) & 1,
{
    let r: u32 = k % 8;
    let y: u8 = rotl8(x, k);
    assert(r < 8);
    if r == 0 {
        assert((j + 8 - r) % 8 == j);
    } else {
        let s: u32 = (8 - r) as u32;
        let m: u32 = ((j + 8 - r) % 8) as u32;
        assert(y == ((x << r) | (x >> s)) as u8);
        assert((y >> j) & 1 == (x >> m) & 1) by (bit_vector)
            requires
                1 <= r < 8,
                j < 8,
                s == 8 - r,
                m == (j + 8 - r) % 8,
                y == ((x << r) | (x >> s)) as u8,
        ;
    }
}

/// Rotating right undoes rotating left, and the other way round.
pub proof fn lemma_rot_inverse(x: u8, k: u32)
    ensures
        rotr8(rotl8(x, k), k) == x,
        rotl8(rotr8(x, k), k) == x,
{
    let r = k % 8;
    if r != 0 {
        let s = (8 - r) as u32;
        let y: u8 = ((x << r) | (x >> s)) as u8;
        let z: u8 = ((x >> r) | (x << s)) as u8;
        assert((((y >> r) | (y << s)) as u8) == x && (((z << r) | (z >> s)) as u8) == x) by (bit_vector)
            requires
                1 <= r < 8,
                s == 8 - r,
                y == ((x << r) | (x >> s)) as u8,
                z == ((x >> r) | (x << s)) as u8,
        ;
    }
}

/// For a permutation, `perm_inverse` is its inverse on both sides.
pub proof fn lemma_perm_inverse(p: Seq<u8>)
    requires
        is_perm(p),
    ensures
        in_range(perm_inverse(p)),
        forall|i: int| 0 <= i < 32 ==> #[trigger] perm_inverse(p)[p[i] as int] == i,
        forall|v: int| 0 <= v < 32 ==> #[trigger] p[perm_inverse(p)[v] as int] == v,
{
    assert forall|i: int| 0 <= i < 32 implies #[trigger] perm_inverse(p)[p[i] as int] == i by {
        lemma_last_index_unique(p, i, 32);
    }
    assert forall|v: int| 0 <= v < 32 implies #[trigger] p[perm_inverse(p)[v] as int] == v by {
        assert(occurs(p, v));
        let i = choose|i: int| 0 <= i < 32 && #[trigger] p[i] == v;
        lemma_last_index_unique(p, i, 32);
    }
    assert forall|v: int| 0 <= v < 32 implies #[trigger] perm_inverse(p)[v] < 32 by {
        lemma_last_index_bound(p, v, 32);
    }
}

/// `last_index` stays below `k` (and below 32).
pub proof fn lemma_last_index_bound(p: Seq<u8>, v: int, k: int)
    requires
        0 <= k <= 32,
    ensures
        last_index(p, v, k) < 32,
        k > 0 ==> last_index(p, v, k) < k,
    decreases k,
{
    if k > 0 {
        lemma_last_index_bound(p, v, k - 1);
    }
}

/// In a permutation, the last position holding `p[i]` is `i` itself.
pub proof fn lemma_last_index_unique(p: Seq<u8>, i: int, k: int)
    requires
        is_perm(p),
        0 <= i < k <= 32,
    ensures
        last_index(p, p[i] as int, k) == i,
    decreases k,
{
    if k - 1 != i {
        assert(p[k - 1] != p[i]);
        lemma_last_index_unique(p, i, k - 1);
    }
}

/// Each operation's inverse undoes it, and it undoes its inverse.
pub proof fn law_op_inverse(op: Op, a: Seq<u8>)
    requires
        op_wf(op),
        a.len() == 32,
    ensures
        inv(op, fwd(op, a)) == a,
        fwd(op, inv(op, a)) == a,
{
    match op {
        Op::Xor(c) => {
            assert forall|i: int| 0 <= i < 32 implies #[trigger] inv(op, fwd(op, a))[i] == a[i]
                && fwd(op, inv(op, a))[i] == a[i] by {
                let x = a[i];
                let y = c@[i];
                assert((x ^ y) ^ y == x) by {
            crate::bits::lemma_xor_bits(x, y, 0);
        }
            }
        },
        Op::Add(c) => {
            assert forall|i: int| 0 <= i < 32 implies #[trigger] inv(op, fwd(op, a))[i] == a[i]
                && fwd(op, inv(op, a))[i] == a[i] by {
                let x = a[i];
                let y = c@[i];
            }
        },
        Op::Rotl(k) => {
            assert forall|i: int| 0 <= i < 32 implies #[trigger] inv(op, fwd(op, a))[i] == a[i]
                && fwd(op, inv(op, a))[i] == a[i] by {
                lemma_rot_inverse(a[i], k);
            }
        },
        Op::Perm(p) => {
            lemma_perm_inverse(p@);
            assert forall|i: int| 0 <= i < 32 implies #[trigger] inv(op, fwd(op, a))[i] == a[i]
                && fwd(op, inv(op, a))[i] == a[i] by {
                let q = perm_inverse(p@);
                assert(p@[q[i] as int] == i);
                assert(q[p@[i] as int] == i);
            }
        },
        Op::Reverse => {},
    }
    assert(inv(op, fwd(op, a)) =~= a);
    assert(fwd(op, inv(op, a)) =~= a);
}

/// Computes the inverse of a permutation: `inv[p[i]] = i`.
pub fn inverse_perm(p: &[u8; 32]) -> (r: [u8; 32])
    requires
        in_range(p@),
    ensures
        r@ == perm_inverse(p@),
{
    let mut out = [0u8; 32];
    let mut i: usize = 0;
    while i < 32
        invariant
            i <= 32,
            in_range(p@),
            out@.len() == 32,
            forall|v: int| 0 <= v < 32 ==> #[trigger] out@[v] == last_index(p@, v, i as int),
        decreases 32 - i,
    {
        let v = p[i] as usize;
        out[v] = i as u8;
        proof {
            assert forall|w: int| 0 <= w < 32 implies #[trigger] out@[w] == last_index(
                p@,
                w,
                i + 1,
            ) by {}
        }
        i = i + 1;
    }
    assert(out@ =~= perm_inverse(p@));
    out
}

/// Rotates a byte left by `k` bits (modulo 8).
pub fn rotate_left8(x: u8, k: u32) -> (r: u8)
    ensures
        r == rotl8(x, k),
{
    let s = k % 8;
    if s == 0 {
        x
    } else {
        (x << s) | (x >> (8 - s))
    }
}

/// Rotates a byte right by `k` bits (modulo 8).
pub fn rotate_right8(x: u8, k: u32) -> (r: u8)
    ensures
        r == rotr8(x, k),
{
    let s = k % 8;
    if s == 0 {
        x
    } else {
        (x >> s) | (x << (8 - s))
    }
}

/// Applies `op` forward to the accumulator: the semantics the emitted code
/// reproduces.
pub fn apply_forward(op: &Op, a: &mut [u8; 32])
    requires
        op_ok(*op),
    ensures
        final(a)@ == fwd(*op, old(a)@),
        final(a)@.len() == 32,
        forall|i: int|
            0 <= i < 32 ==> match *op {
                Op::Xor(c) => #[trigger] final(a)@[i] == old(a)@[i] ^ c@[i],
                Op::Add(c) => final(a)@[i] as int == (old(a)@[i] as int + c@[i] as int) % 256,
                Op::Rotl(k) => final(a)@[i] == rotl8(old(a)@[i], k),
                Op::Perm(p) => final(a)@[i] == old(a)@[p@[i] as int],
                Op::Reverse => final(a)@[i] == old(a)@[31 - i],
            },
{
    let t = *a;
    let mut i: usize = 0;
    while i < 32
        invariant
            i <= 32,
            op_ok(*op),
            t@.len() == 32,
            a@.len() == 32,
            forall|j: int| 0 <= j < i ==> #[trigger] a@[j] == fwd(*op, t@)[j],
        decreases 32 - i,
    {
        let v = match op {
            Op::Xor(c) => t[i] ^ c[i],
            Op::Add(c) => t[i].wrapping_add(c[i]),
            Op::Rotl(k) => rotate_left8(t[i], *k),
            Op::Perm(p) => t[p[i] as usize],
            Op::Reverse => t[31 - i],
        };
        a[i] = v;
        i = i + 1;
    }
    assert(a@ =~= fwd(*op, t@));
}

/// Applies the inverse of `op` to the accumulator.
pub fn apply_inverse(op: &Op, a: &mut [u8; 32])
    requires
        op_ok(*op),
    ensures
        final(a)@ == inv(*op, old(a)@),
        final(a)@.len() == 32,
        forall|i: int|
            0 <= i < 32 ==> match *op {
                Op::Xor(c) => #[trigger] final(a)@[i] ^ c@[i] == old(a)@[i],
                Op::Add(c) => (final(a)@[i] as int + c@[i] as int) % 256 == old(a)@[i] as int,
                Op::Rotl(k) => rotl8(final(a)@[i], k) == old(a)@[i],
                Op::Perm(p) => is_perm(p@) ==> final(a)@[p@[i] as int] == old(a)@[i],
                Op::Reverse => final(a)@[i] == old(a)@[31 - i],
            },
{
    let t = *a;
    let q: [u8; 32] = match op {
        Op::Perm(p) => inverse_perm(p),
        _ => [0u8; 32],
    };
    proof {
        if let Op::Perm(p) = *op {
            lemma_last_index_all(p@);
        }
    }
    let mut i: usize = 0;
    while i < 32
        invariant
            i <= 32,
            op_ok(*op),
            t@.len() == 32,
            a@.len() == 32,
            *op matches Op::Perm(p) ==> q@ == perm_inverse(p@) && in_range(q@),
            forall|j: int| 0 <= j < i ==> #[trigger] a@[j] == inv(*op, t@)[j],
        decreases 32 - i,
    {
        let v = match op {
            Op::Xor(c) => t[i] ^ c[i],
            Op::Add(c) => t[i].wrapping_sub(c[i]),
            Op::Rotl(k) => rotate_right8(t[i], *k),
            Op::Perm(_) => t[q[i] as usize],
            Op::Reverse => t[31 - i],
        };
        a[i] = v;
        i = i + 1;
    }
    assert(a@ =~= inv(*op, t@));
    proof {
        match *op {
            Op::Xor(c) => {
                assert forall|i: int| 0 <= i < 32 implies #[trigger] a@[i] ^ c@[i] == t@[i] by {
                    crate::bits::lemma_xor_bits(t@[i], c@[i], 0);
                }
            },
            Op::Rotl(k) => {
                assert forall|i: int| 0 <= i < 32 implies rotl8(#[trigger] a@[i], k) == t@[i] by {
                    lemma_rot_inverse(t@[i], k);
                }
            },
            Op::Perm(p) => {
                if is_perm(p@) {
                    lemma_perm_inverse(p@);
                }
            },
            _ => {},
        }
    }
}

/// Every entry of `perm_inverse` indexes the accumulator.
pub proof fn lemma_last_index_all(p: Seq<u8>)
    ensures
        in_range(perm_inverse(p)),
{
    assert forall|v: int| 0 <= v < 32 implies #[trigger] perm_inverse(p)[v] < 32 by {
        lemma_last_index_bound(p, v, 32);
    }
}

/// The accumulator after running a program forward, first operation first.
pub open spec fn run_fwd(prog: Seq<Op>, a: Seq<u8>) -> Seq<u8>
    decreases prog.len(),
{
    if prog.len() == 0 {
        a
    } else {
        fwd(prog.last(), run_fwd(prog.drop_last(), a))
    }
}

/// The accumulator after undoing a program: the inverses, last operation
/// first.
pub open spec fn run_inv(prog: Seq<Op>, a: Seq<u8>) -> Seq<u8>
    decreases prog.len(),
{
    if prog.len() == 0 {
        a
    } else {
        run_inv(prog.drop_last(), inv(prog.last(), a))
    }
}

/// Every operation of the program can be applied.
pub open spec fn prog_ok(prog: Seq<Op>) -> bool {
    forall|i: int| 0 <= i < prog.len() ==> #[trigger] op_ok(prog[i])
}

/// Every operation of the program is invertible.
pub open spec fn prog_wf(prog: Seq<Op>) -> bool {
    forall|i: int| 0 <= i < prog.len() ==> #[trigger] op_wf(prog[i])
}

/// Each of the three kinds of accumulator stays 32 bytes long.
pub proof fn lemma_lengths(prog: Seq<Op>, a: Seq<u8>)
    requires
        a.len() == 32,
    ensures
        run_fwd(prog, a).len() == 32,
        run_inv(prog, a).len() == 32,
    decreases prog.len(),
{
    if prog.len() > 0 {
        lemma_lengths(prog.drop_last(), a);
        lemma_lengths(prog.drop_last(), inv(prog.last(), a));
    }
}

/// Replaying the forward program on the seed gives the key back:
/// `F(F^{-1}(key)) == key`, for a program of invertible operations.
pub proof fn law_forward_of_seed(prog: Seq<Op>, key: Seq<u8>)
    requires
        prog_wf(prog),
        key.len() == 32,
    ensures
        run_fwd(prog, run_inv(prog, key)) == key,
    decreases prog.len(),
{
    if prog.len() > 0 {
        let init = prog.drop_last();
        let last = prog.last();
        assert(op_wf(prog[prog.len() - 1]));
        assert(prog_wf(init)) by {
            assert forall|i: int| 0 <= i < init.len() implies #[trigger] op_wf(init[i]) by {
                assert(init[i] == prog[i]);
            }
        }
        let k2 = inv(last, key);
        law_forward_of_seed(init, k2);
        law_op_inverse(last, key);
    }
}

/// The seed `F^{-1}(key)`: each operation's inverse applied, last operation
/// first, so that replaying the program on the seed reproduces the key.
pub fn seed_of(key: [u8; 32], program: &Vec<Op>) -> (r: [u8; 32])
    requires
        prog_ok(program@),
    ensures
        r@ == run_inv(program@, key@),
{
    let mut a = key;
    let mut i: usize = program.len();
    proof {
        assert(program@.take(i as int) =~= program@);
    }
    while i > 0
        invariant
            i <= program@.len(),
            prog_ok(program@),
            a@.len() == 32,
            run_inv(program@.take(i as int), a@) == run_inv(program@, key@),
        decreases i,
    {
        let ghost before = a@;
        proof {
            assert(program@.take(i as int).drop_last() =~= program@.take(i - 1));
            assert(program@.take(i as int).last() == program@[i - 1]);
            assert(op_ok(program@[i - 1]));
        }
        apply_inverse(&program[i - 1], &mut a);
        i = i - 1;
    }
    proof {
        assert(program@.take(0) =~= Seq::<Op>::empty());
    }
    a
}

/// The SplitMix64 increment.
pub const GOLDEN_GAMMA: u64 = 0x9E37_79B9_7F4A_7C15;

/// The first SplitMix64 finalizer multiplier.
pub const MIX_A: u64 = 0xBF58_476D_1CE4_E5B9;

/// The second SplitMix64 finalizer multiplier.
pub const MIX_B: u64 = 0x94D0_49BB_1331_11EB;

/// The multiplier that folds seed material into the state.
pub const SEED_MUL: u64 = 0x2545_F491_4F6C_DD1D;

/// A small SplitMix64 generator. It only picks the shape of a program and
/// never touches key material.
pub struct Rng {
    /// The generator's state.
    pub state: u64,
}

/// The SplitMix64 finalizer.
pub open spec fn splitmix_out(z: u64) -> u64 {
    let z1 = vstd::wrapping::u64_specs::wrapping_mul(z ^ (z >> 30u64), MIX_A);
    let z2 = vstd::wrapping::u64_specs::wrapping_mul(z1 ^ (z1 >> 27u64), MIX_B);
    z2 ^ (z2 >> 31u64)
}

/// The state after `k` steps from `s`.
pub open spec fn advance(s: u64, k: nat) -> u64
    decreases k,
{
    if k == 0 {
        s
    } else {
        vstd::wrapping::u64_specs::wrapping_add(advance(s, (k - 1) as nat), GOLDEN_GAMMA)
    }
}

/// The `k`-th output (counting from 0) of a generator in state `s`.
pub open spec fn output_at(s: u64, k: nat) -> u64 {
    splitmix_out(advance(s, k + 1))
}

/// Stepping `a` times and then `b` times is stepping `a + b` times.
pub proof fn lemma_advance_add(s: u64, a: nat, b: nat)
    ensures
        advance(advance(s, a), b) == advance(s, a + b),
    decreases b,
{
    if b > 0 {
        lemma_advance_add(s, a, (b - 1) as nat);
    }
}

/// `x` rotated left by 13 bits.
pub open spec fn rotl13(x: u64) -> u64 {
    (x << 13u64) | (x >> 51u64)
}

/// Folds one little-endian word of seed material into the state.
pub open spec fn mix_step(state: u64, word: u64) -> u64 {
    vstd::wrapping::u64_specs::wrapping_mul(rotl13(state ^ word), SEED_MUL)
}

/// Folds `b` into the state eight bytes at a time (a shorter last chunk is
/// read as if padded with zeros).
pub open spec fn mix_bytes(state: u64, b: Seq<u8>) -> u64
    decreases b.len(),
{
    if b.len() == 0 {
        state
    } else {
        let n: int = if b.len() < 8 {
            b.len() as int
        } else {
            8
        };
        mix_bytes(mix_step(state, le_int(b.take(n)) as u64), b.skip(n))
    }
}

/// The state seeded from a key and nonce.
pub open spec fn seeded(key: Seq<u8>, nonce: Seq<u8>) -> u64 {
    mix_bytes(mix_bytes(GOLDEN_GAMMA, key), nonce)
}

/// Folds `bytes` into `state`.
pub fn mix(state: u64, bytes: &[u8]) -> (r: u64)
    ensures
        r == mix_bytes(state, bytes@),
{
    let n = bytes.len();
    let mut st = state;
    let mut pos: usize = 0;
    proof {
        assert(bytes@.skip(0) =~= bytes@);
    }
    while pos < n
        invariant
            pos <= n,
            n == bytes@.len(),
            mix_bytes(st, bytes@.skip(pos as int)) == mix_bytes(state, bytes@),
        decreases n - pos,
    {
        let len: usize = if n - pos < 8 {
            n - pos
        } else {
            8
        };
        let w = crate::le::read_le(bytes, pos, len);
        proof {
            let rest = bytes@.skip(pos as int);
            assert(rest.take(len as int) =~= bytes@.subrange(pos as int, pos + len));
            assert(rest.skip(len as int) =~= bytes@.skip(pos + len));
        }
        let x = st ^ w;
        let rot = (x << 13u64) | (x >> 51u64);
        st = rot.wrapping_mul(SEED_MUL);
        pos = pos + len;
    }
    proof {
        assert(bytes@.skip(n as int) =~= Seq::<u8>::empty());
    }
    st
}

impl Rng {
    /// A generator seeded from a key and nonce.
    pub fn from_material(key: &[u8; 32], nonce: &[u8; 12]) -> (r: Rng)
        ensures
            r.state == seeded(key@, nonce@),
    {
        let st = mix(GOLDEN_GAMMA, key.as_slice());
        Rng { state: mix(st, nonce.as_slice()) }
    }

    /// A generator seeded from a fresh draw of the operating system
    /// generator; `None` where that is unavailable.
    pub fn new() -> (r: Option<Rng>)
        ensures
            r matches Some(g) ==> exists|key: Seq<u8>, nonce: Seq<u8>|
                key.len() == 32 && nonce.len() == 12 && g.state == #[trigger] seeded(key, nonce),
    {
        match crate::crypt::keygen::gen_key_nonce() {
            Some((key, nonce)) => Some(Rng::from_material(&key, &nonce)),
            None => None,
        }
    }

    /// The next 64-bit output.
    pub fn next_u64(&mut self) -> (r: u64)
        ensures
            final(self).state == advance(old(self).state, 1),
            r == output_at(old(self).state, 0),
    {
        proof {
            reveal_with_fuel(advance, 2);
        }
        self.state = self.state.wrapping_add(GOLDEN_GAMMA);
        let mut z = self.state;
        z = (z ^ (z >> 30u64)).wrapping_mul(MIX_A);
        z = (z ^ (z >> 27u64)).wrapping_mul(MIX_B);
        z ^ (z >> 31u64)
    }

    /// A value in `0..n`.
    pub fn below(&mut self, n: u32) -> (r: u32)
        requires
            n > 0,
        ensures
            final(self).state == advance(old(self).state, 1),
            r as int == (output_at(old(self).state, 0) as int) % (n as int),
            r < n,
    {
        let x = self.next_u64();
        (x % (n as u64)) as u32
    }

    /// A value in `lo..=hi`.
    pub fn range_incl(&mut self, lo: u32, hi: u32) -> (r: u32)
        requires
            lo <= hi,
            hi - lo < u32::MAX,
        ensures
            final(self).state == advance(old(self).state, 1),
            r as int == lo + (output_at(old(self).state, 0) as int) % (hi - lo + 1),
            lo <= r <= hi,
    {
        lo + self.below(hi - lo + 1)
    }

    /// A byte: bits 24 to 31 of the next output.
    pub fn byte(&mut self) -> (r: u8)
        ensures
            final(self).state == advance(old(self).state, 1),
            r == (output_at(old(self).state, 0) >> 24u64) as u8,
    {
        (self.next_u64() >> 24u64) as u8
    }

    /// Thirty-two bytes, from thirty-two successive outputs.
    pub fn arr32(&mut self) -> (r: [u8; 32])
        ensures
            final(self).state == advance(old(self).state, 32),
            forall|i: int| 0 <= i < 32 ==> #[trigger] r@[i] == (output_at(old(self).state, i as nat)
                >> 24u64) as u8,
    {
        let ghost s0 = self.state;
        let mut a = [0u8; 32];
        let mut i: usize = 0;
        while i < 32
            invariant
                i <= 32,
                a@.len() == 32,
                self.state == advance(s0, i as nat),
                forall|j: int| 0 <= j < i ==> #[trigger] a@[j] == (output_at(s0, j as nat) >> 24u64) as u8,
            decreases 32 - i,
        {
            proof {
                lemma_advance_add(s0, i as nat, 1);
            }
            let b = self.byte();
            a[i] = b;
            i = i + 1;
        }
        a
    }

    /// A permutation of `0..32`, shuffled by Fisher–Yates with 31 draws.
    pub fn perm(&mut self) -> (r: [u8; 32])
        ensures
            is_perm(r@),
            final(self).state == advance(old(self).state, 31),
    {
        let ghost s0 = self.state;
        let mut p = [0u8; 32];
        let mut i: usize = 0;
        while i < 32
            invariant
                i <= 32,
                p@.len() == 32,
                forall|j: int| 0 <= j < i ==> #[trigger] p@[j] == j,
            decreases 32 - i,
        {
            p[i] = i as u8;
            i = i + 1;
        }
        proof {
            assert forall|v: int| 0 <= v < 32 implies #[trigger] occurs(p@, v) by {
                assert(p@[v] == v);
            }
        }
        let mut i: usize = 31;
        while i > 0
            invariant
                i <= 31,
                is_perm(p@),
                self.state == advance(s0, (31 - i) as nat),
            decreases i,
        {
            proof {
                lemma_advance_add(s0, (31 - i) as nat, 1);
            }
            let j = self.below(i as u32 + 1) as usize;
            let ghost q = p@;
            let x = p[i];
            let y = p[j];
            p[i] = y;
            p[j] = x;
            proof {
                assert forall|v: int| 0 <= v < 32 implies #[trigger] occurs(p@, v) by {
                    assert(occurs(q, v));
                    let k = choose|k: int| 0 <= k < 32 && #[trigger] q[k] == v;
                    if k == i {
                        assert(p@[j as int] == v);
                    } else if k == j {
                        assert(p@[i as int] == v);
                    } else {
                        assert(p@[k] == v);
                    }
                }
            }
            i = i - 1;
        }
        p
    }
}

/// Which of the five kinds an operation is, in the order a draw picks them.
pub open spec fn op_kind(op: Op) -> nat {
    match op {
        Op::Xor(_) => 0,
        Op::Add(_) => 1,
        Op::Rotl(_) => 2,
        Op::Perm(_) => 3,
        Op::Reverse => 4,
    }
}

impl Op {
    /// A random operation: the kind from one draw modulo 5, then its
    /// constants (a rotation of 1 to 7 bits, a uniformly shuffled
    /// permutation, or 32 random bytes).
    pub fn random(rng: &mut Rng) -> (r: Op)
        ensures
            op_kind(r) == (output_at(old(rng).state, 0) as int) % 5,
            op_wf(r),
            op_ok(r),
            r matches Op::Rotl(k) ==> 1 <= k <= 7,
    {
        let kind = rng.below(5);
        let r = if kind == 0 {
            Op::Xor(rng.arr32())
        } else if kind == 1 {
            Op::Add(rng.arr32())
        } else if kind == 2 {
            Op::Rotl(rng.range_incl(1, 7))
        } else if kind == 3 {
            Op::Perm(rng.perm())
        } else {
            Op::Reverse
        };
        r
    }
}

/// The XOR of a list of 32-byte shares, starting from zeros.
pub open spec fn xor_all(shares: Seq<[u8; 32]>) -> Seq<u8>
    decreases shares.len(),
{
    if shares.len() == 0 {
        Seq::new(32, |i: int| 0u8)
    } else {
        xor_seq(xor_all(shares.drop_last()), shares.last()@)
    }
}

/// A reconstruction plan: the forward program, the shares of its seed, and
/// the decoy constants (each XORed in and straight back out).
pub struct Plan {
    /// The forward program `F`.
    pub program: Vec<Op>,
    /// Two or three shares that XOR to `F^{-1}(key)`.
    pub shares: Vec<[u8; 32]>,
    /// Up to two canceling decoy constants.
    pub decoys: Vec<[u8; 32]>,
}

/// XOR with the same bytes twice cancels, and XOR regroups.
pub proof fn lemma_xor_regroup(a: Seq<u8>, b: Seq<u8>, c: Seq<u8>)
    requires
        a.len() == 32,
        b.len() == 32,
        c.len() == 32,
    ensures
        xor_seq(xor_seq(a, b), c) == xor_seq(a, xor_seq(b, c)),
        xor_seq(b, xor_seq(a, b)) == a,
{
    assert forall|i: int| 0 <= i < 32 implies #[trigger] xor_seq(xor_seq(a, b), c)[i] == xor_seq(
        a,
        xor_seq(b, c),
    )[i] && xor_seq(b, xor_seq(a, b))[i] == a[i] by {
        let x = a[i];
        let y = b[i];
        let z = c[i];
        assert((x ^ y) ^ z == x ^ (y ^ z) && y ^ (x ^ y) == x) by {
            crate::bits::lemma_xor_bits(x, y, z);
        }
    }
    assert(xor_seq(xor_seq(a, b), c) =~= xor_seq(a, xor_seq(b, c)));
    assert forall|i: int| 0 <= i < 32 implies #[trigger] xor_seq(b, xor_seq(a, b))[i] == a[i] by {
        let x = a[i];
        let y = b[i];
        assert(y ^ (x ^ y) == x) by {
            crate::bits::lemma_xor_bits(x, y, 0);
        }
    }
    assert(xor_seq(b, xor_seq(a, b)) =~= a);
}

/// Draws a forward program of 8 to 20 operations for `key`, computes its
/// seed, and splits the seed into 2 or 3 shares: all but the last drawn at
/// random, the last set so that all of them XOR to the seed. Up to two
/// decoys are drawn as well.
pub fn plan(rng: &mut Rng, key: [u8; 32]) -> (r: Plan)
    ensures
        8 <= r.program@.len() <= 20,
        prog_wf(r.program@),
        prog_ok(r.program@),
        2 <= r.shares@.len() <= 3,
        xor_all(r.shares@) == run_inv(r.program@, key@),
        run_fwd(r.program@, xor_all(r.shares@)) == key@,
        r.decoys@.len() <= 2,
{
    let m = rng.range_incl(8, 20);
    let mut program: Vec<Op> = Vec::new();
    let mut k: u32 = 0;
    while k < m
        invariant
            k <= m <= 20,
            program@.len() == k,
            prog_wf(program@),
            prog_ok(program@),
        decreases m - k,
    {
        let op = Op::random(rng);
        program.push(op);
        k = k + 1;
    }
    let s0 = seed_of(key, &program);
    let nshares = rng.range_incl(2, 3);
    let mut shares: Vec<[u8; 32]> = Vec::new();
    let mut last = s0;
    let mut k: u32 = 0;
    proof {
        assert(xor_all(shares@) =~= Seq::new(32, |i: int| 0u8));
        assert(xor_seq(s0@, xor_all(shares@)) =~= s0@) by {
            assert forall|i: int| 0 <= i < 32 implies #[trigger] xor_seq(s0@, xor_all(shares@))[i]
                == s0@[i] by {
                let x = s0@[i];
                assert(x ^ 0u8 == x) by {
            crate::bits::lemma_xor_bits(x, 0, 0);
        }
            }
        }
    }
    while k + 1 < nshares
        invariant
            k < nshares <= 3,
            shares@.len() == k,
            last@ == xor_seq(s0@, xor_all(shares@)),
            s0@.len() == 32,
        decreases nshares - k,
    {
        let sh = rng.arr32();
        proof {
            lemma_xor_regroup(s0@, xor_all(shares@), sh@);
            assert(shares@.push(sh).drop_last() =~= shares@);
        }
        last = xor32(&last, &sh);
        shares.push(sh);
        k = k + 1;
    }
    proof {
        assert(shares@.push(last).drop_last() =~= shares@);
        lemma_xor_regroup(s0@, xor_all(shares@), xor_all(shares@));
        assert(xor_seq(xor_all(shares@), last@) == s0@);
    }
    shares.push(last);
    let ndecoys = rng.range_incl(0, 2);
    let mut decoys: Vec<[u8; 32]> = Vec::new();
    let mut k: u32 = 0;
    while k < ndecoys
        invariant
            k <= ndecoys <= 2,
            decoys@.len() == k,
        decreases ndecoys - k,
    {
        decoys.push(rng.arr32());
        k = k + 1;
    }
    proof {
        law_forward_of_seed(program@, key@);
    }
    Plan { program, shares, decoys }
}

} // verus!
