//! Bit-level facts the codecs rely on, each proved once by the bit-vector
//! solver and used wherever the code shifts, masks or wraps.

use vstd::prelude::*;

verus! {

/// Small powers of two as shifts.
pub proof fn lemma_shift_consts()
    by (bit_vector)
    ensures
        (1u32 << 0u32) == 1,
        (1u32 << 1u32) == 2,
        (1u32 << 3u32) == 8,
        (1u32 << 4u32) == 16,
        (1u32 << 6u32) == 64,
        (1u32 << 8u32) == 256,
        (1u32 << 9u32) == 512,
        0u32 < (1u32 << 0u32),
        (1usize << 0usize) == 1,
        (1usize << 1usize) == 2,
        (1usize << 2usize) == 4,
        (1usize << 3usize) == 8,
        (1usize << 4usize) == 16,
        (1usize << 6usize) == 64,
        (1usize << 8usize) == 256,
{
}

/// A range-coder probability stays within `[31, 2017]` under either
/// update, and the update steps are small.
pub proof fn lemma_prob_bits(p: u16)
    by (bit_vector)
    ensures
        31 <= p <= 2017 ==> 31 <= (p + ((2048 - p) as u16 >> 5u16)) as u16 <= 2017,
        31 <= p <= 2017 ==> 31 <= (p - (p >> 5u16)) as u16 <= 2017,
        31 <= p <= 2017 ==> ((2048 - p) as u16) >> 5u16 <= 64 && p >> 5u16 <= p,
{
}

/// Facts about a range-coder range: its 11-bit bound, halving, and
/// widening by a byte.
pub proof fn lemma_range_bits(r: u32, q: u32)
    by (bit_vector)
    ensures
        q == r >> 11 ==> q == r / 2048,
        r >= 0x100_0000 ==> (r >> 1u32) >= 0x80_0000 && (r >> 1u32) as int * 2 <= r,
        r < 0x100_0000 && r >= 0x2_0000 ==> (r << 8u32) >= 0x100_0000,
        1 <= r < 0x100_0000 ==> (r << 8u32) > r && (r << 8u32) < 0x1_0000_0000,
{
}

/// One step of decoding direct bits: the all-ones-or-zero mask, the code
/// it leaves, and the accumulated value.
pub proof fn lemma_direct_bits(c: u32, r: u32, res: u32, k: u32, t: u32)
    by (bit_vector)
    ensures
        0u32.wrapping_sub(c >> 31u32) == 0 || 0u32.wrapping_sub(c >> 31u32) == 0xFFFF_FFFF,
        res < (1u32 << k) && k < 26 && (t == 0 || t == 0xFFFF_FFFF) ==> (res << 1u32).wrapping_add(
            t.wrapping_add(1),
        ) < (1u32 << (k + 1) as u32),
        res < (1u32 << k) && k < 26 && (t == 0 || t == 0xFFFF_FFFF) ==> (res << 1u32).wrapping_add(
            t.wrapping_add(1),
        ) == res * 2 + t.wrapping_add(1),
        c < r && r >= 0x100_0000 && c < (r >> 1u32) ==> 0u32.wrapping_sub(c.wrapping_sub(r >> 1u32)
            >> 31u32) == 0xFFFF_FFFF && c.wrapping_sub(r >> 1u32).wrapping_add((r >> 1u32)
            & 0xFFFF_FFFFu32) == c,
        c < r && r >= 0x100_0000 && c >= (r >> 1u32) ==> 0u32.wrapping_sub(c.wrapping_sub(r >> 1u32)
            >> 31u32) == 0 && c.wrapping_sub(r >> 1u32).wrapping_add((r >> 1u32) & 0u32) == c - (r
            >> 1u32),
{
}

/// One step of a most-significant-bit-first bit tree over `u32` nodes.
pub proof fn lemma_tree_u32(m: u32, b: u32, k: u32, num_bits: u32)
    by (bit_vector)
    ensures
        (1u32 << k) <= m < (1u32 << (k + 1) as u32) && k < num_bits && num_bits <= 8 ==> (m as usize)
            < (1usize << num_bits),
        (1u32 << k) <= m < (1u32 << (k + 1) as u32) && k < 8 && b <= 1 ==> (1u32 << (k + 1) as u32)
            <= ((m << 1u32) | b) < (1u32 << (k + 2) as u32),
        (1u32 << num_bits) <= m < (1u32 << (num_bits + 1) as u32) && num_bits <= 8 ==> m - (1u32
            << num_bits) < (1u32 << num_bits),
        (1u32 << k) <= m < (1u32 << (k + 1) as u32) && k < 8 ==> m < 0x200,
{
}

/// One step of a least-significant-bit-first bit tree, decoding.
pub proof fn lemma_rev_tree(m: usize, sym: u32, b: u32, k: u32, num_bits: u32)
    by (bit_vector)
    ensures
        (1usize << k) <= m < (1usize << (k + 1) as usize) && k < num_bits && num_bits <= 8 ==> m < (
        1usize << num_bits),
        (1usize << k) <= m < (1usize << (k + 1) as usize) && k < 8 && b <= 1 ==> (1usize << (k
            + 1) as usize) <= ((m << 1usize) | b as usize) < (1usize << (k + 2) as usize),
        sym < (1u32 << k) && k < 8 && b <= 1 ==> (sym | (b << k)) < (1u32 << (k + 1) as u32),
{
}

/// One step of a most-significant-bit-first bit tree, encoding.
pub proof fn lemma_enc_tree(m: usize, bit: u32, k: u32, num_bits: u32)
    by (bit_vector)
    ensures
        (1usize << (num_bits - k) as usize) <= m < (1usize << (num_bits - k + 1) as usize) && 0 < k
            <= num_bits && num_bits <= 8 ==> m < (1usize << num_bits),
        (1usize << (num_bits - k - 1) as usize) <= m < (1usize << (num_bits - k) as usize) && bit
            <= 1 && k < num_bits && num_bits <= 8 ==> (1usize << (num_bits - k) as usize) <= ((m
            << 1usize) | bit as usize) < (1usize << (num_bits - k + 1) as usize),
{
}

/// One step of a least-significant-bit-first bit tree, encoding.
pub proof fn lemma_enc_rev_tree(m: usize, bit: u32, k: u32, num_bits: u32)
    by (bit_vector)
    ensures
        (1usize << k as usize) <= m < (1usize << (k + 1) as usize) && k < num_bits && num_bits <= 8
            ==> m < (1usize << num_bits),
        (1usize << k as usize) <= m < (1usize << (k + 1) as usize) && bit <= 1 && k < 8 ==> (1usize
            << (k + 1) as usize) <= ((m << 1usize) | bit as usize) < (1usize << (k + 2) as usize),
{
}

/// A single bit taken out of a word is 0 or 1.
pub proof fn lemma_bit_of(x: u32, k: u32)
    by (bit_vector)
    ensures
        (x >> k) & 1u32 <= 1,
{
}

/// One step of a literal's eight-bit tree.
pub proof fn lemma_literal_step(os: u32, b: u32)
    by (bit_vector)
    ensures
        1 <= os < 0x100 && b <= 1 ==> os < ((os << 1u32) | b) < 0x200,
{
}

/// A literal coded against a match byte: the offset of its probability
/// block.
pub proof fn lemma_match_offset(match_bit: u32, symbol: u32)
    by (bit_vector)
    ensures
        match_bit <= 1 ==> ((1 + match_bit) as u32) << 8u32 <= 512,
        match_bit <= 1 ==> ((1 + match_bit) as u32) << 8u32 == (1 + match_bit) * 256,
        match_bit <= 1 && symbol < 0x100 ==> (((1 + match_bit) as u32) << 8u32) + symbol < 0x300,
{
}

/// The pieces of a distance slot: the count of direct bits, the base the
/// slot stands for, and their ranges.
pub proof fn lemma_slot_bits(pos_slot: u32, num_direct: u32, dist: u32)
    by (bit_vector)
    ensures
        4 <= pos_slot < 64 ==> 2 <= (pos_slot >> 1u32) <= 31,
        4 <= pos_slot < 14 && num_direct == (pos_slot >> 1u32) - 1u32 && dist == (2 | (pos_slot
            & 1)) << num_direct ==> dist >= pos_slot && dist - pos_slot + (1u32 << num_direct) <= 115
            && num_direct <= 5 && dist + (1u32 << num_direct) <= 0x1_0000,
        (num_direct as usize) <= 5 ==> (1usize << num_direct as usize) == (1u32 << num_direct) as usize,
        14 <= pos_slot < 64 && num_direct == (pos_slot >> 1u32) - 1u32 ==> 6 <= num_direct <= 30,
        6 <= num_direct <= 30 && dist < (1u32 << num_direct) ==> ((dist >> 4u32) << 4u32) + (dist
            & 15u32) == dist && (dist >> 4u32) < (1u32 << ((num_direct - 4) as u32)) && (dist
            & 15u32) < 16,
        6 <= num_direct <= 30 && dist < (1u32 << ((num_direct - 4) as u32)) ==> (dist << 4u32) == dist
            * 16,
{
}

/// Facts about the bits of a byte.
pub proof fn lemma_byte_bits(b: u8)
    by (bit_vector)
    ensures
        (b & 0x7f) == b % 128,
        b & 0x80 == 0 ==> b < 128,
        b & 0x80 != 0 ==> b >= 128,
        b < 128 ==> (b | 0x80) == b + 128,
        b & 0x7e == 0 ==> b % 128 <= 1,
        b <= 1 ==> b & 0x7e == 0,
        (b & 3) == b % 4,
        (b >> 2) == b / 4,
        ((b >> 2) & 7) == (b / 4) % 8,
        (b >> 5) == b / 32,
{
}

/// The low bytes and seven-bit groups of a 64-bit word.
pub proof fn lemma_u64_bits(v: u64)
    by (bit_vector)
    ensures
        ((v & 0x7f) as u8) == v % 128,
        (v >> 7) == v / 128,
        ((v & 0xff) as u8) == v % 256,
        (v >> 8) == v / 256,
        ((v & 0xffff_ffff) as u32) == v % 0x1_0000_0000,
        (v as u8) == v % 256,
{
}

/// The low bytes and seven-bit groups of a 32-bit word.
pub proof fn lemma_u32_bits(v: u32)
    by (bit_vector)
    ensures
        ((v as u8) | 0x80) == v % 128 + 128,
        (v >> 7) == v / 128,
        (v as u8) == v % 256,
        (v >> 8) == v / 256,
        (v & 0xff) == v % 256,
{
}

/// Or-ing a field in above the bits already held adds it, where nothing
/// already held reaches the field's first bit.
pub proof fn lemma_or_above(c: u64, y: u64, b: u64)
    by (bit_vector)
    requires
        b < 8,
        c < (1u64 << b),
        y < 0x1000_0000,
    ensures
        c | (y << b) == c + (y << b),
{
}

/// Two nibbles side by side in one byte.
pub proof fn lemma_nibbles(x: u8, y: u8)
    by (bit_vector)
    requires
        x < 16,
        y < 16,
    ensures
        (x << 4u8) | y == x * 16 + y,
{
}

/// Exclusive or is its own inverse, regroups, and has zero as identity.
pub proof fn lemma_xor_bits(x: u8, y: u8, z: u8)
    by (bit_vector)
    ensures
        (x ^ y) ^ y == x,
        (x ^ y) ^ z == x ^ (y ^ z),
        y ^ (x ^ y) == x,
        x ^ 0u8 == x,
{
}

/// Masking with one less than a power of two stays below that power.
pub proof fn lemma_and_mask(x: usize, mask: usize)
    by (bit_vector)
    ensures
        x & mask <= mask,
        x & 3usize == x % 4,
{
}


/// The range encoder's low end across one byte shift: what remains, and
/// that four shifts clear it.
pub proof fn lemma_coder_low(l: u64)
    by (bit_vector)
    ensures
        l < 0x2_0000_0000 ==> (l << 8u64) & 0xFFFF_FFFFu64 == (l % 0x100_0000) * 256,
        l < 0x2_0000_0000 ==> ((((((((l % 0x100_0000) * 256) % 0x100_0000) * 256) % 0x100_0000)
            * 256) % 0x100_0000) * 256) == 0,
{
}

/// The range encoder's low end split into its carry, the byte that
/// settles, and the rest.
pub proof fn lemma_coder_carry(l: u64)
    by (bit_vector)
    ensures
        l < 0x2_0000_0000 ==> (l >> 32u64) == l / 0x1_0000_0000,
        l < 0x2_0000_0000 ==> (l >> 24u64) & 0xFFu64 == (l / 0x100_0000) % 256,
        l < 0x2_0000_0000 ==> (l / 0x1_0000_0000) * 0x1_0000_0000 + ((l / 0x100_0000) % 256)
            * 0x100_0000 + l % 0x100_0000 == l,
        l < 0x2_0000_0000 ==> ((l / 0x100_0000) % 256) * 0x100_0000 + l % 0x100_0000 == l
            % 0x1_0000_0000,
{
}

/// A range or code widened by a byte, a range halved, a bit taken off the
/// bottom, and a tree node stepped.
pub proof fn lemma_coder_words(r: u32, c: u32, b: u32)
    by (bit_vector)
    ensures
        r < 0x100_0000 ==> (r << 8u32) == r * 256,
        (r >> 1u32) == r / 2,
        c < 0x100_0000 && b < 256 ==> ((c << 8u32) | b) == c * 256 + b,
        (r & 1u32) == r % 2,
        c < 0x1_0000 && b <= 1 ==> ((c << 1u32) | b) == c * 2 + b,
        ((r & 0u32) << 3u32) + (c >> 5u32) == c >> 5u32,
        c < 0x200 && c >= 0x100 ==> c - 0x100 < 0x100,
{
}

/// A tree node stepped, in `usize`.
pub proof fn lemma_node_step(m: usize, b: usize, n: usize)
    by (bit_vector)
    ensures
        m < 0x1_0000 && b <= 1 ==> ((m << 1usize) | b) == m * 2 + b,
        m < (1usize << n) && n <= 8 ==> m < 0x1_0000,
{
}


/// Decoding a most-significant-first tree: the node after `j` bits is a
/// one followed by the top `j` bits of the symbol.
pub proof fn lemma_tree_node(sym: u32, j: u32, k: u32)
    by (bit_vector)
    ensures
        j + k <= 8 && k >= 1 && sym < (1u32 << ((j + k) as u32)) ==> ((((1u32 << j) | (sym >> k))
            << 1u32) | ((sym >> ((k - 1) as u32)) & 1u32)) == ((1u32 << ((j + 1) as u32)) | (sym >> ((
            k - 1) as u32))),
        k <= 8 && sym < (1u32 << k) ==> ((1u32 << k) | (sym >> 0u32)) - (1u32 << k) == sym,
        k <= 8 && sym < (1u32 << k) ==> ((1u32 << 0u32) | (sym >> k)) == 1u32,
{
}

/// Decoding a least-significant-first tree, or direct bits: the symbol
/// after `k` bits is the low `k` bits of the coded value, or its top.
pub proof fn lemma_low_bits_acc(v: u32, k: u32, n: u32)
    by (bit_vector)
    ensures
        k < 31 ==> ((v & (((1u32 << k) - 1u32) as u32)) | (((v >> k) & 1u32) << k)) == (v & (((1u32
            << ((k + 1) as u32)) - 1u32) as u32)),
        n <= 30 && v < (1u32 << n) ==> (v & (((1u32 << n) - 1u32) as u32)) == v,
        k < 30 && n <= 30 && k < n && v < (1u32 << n) ==> (((v >> ((k + 1) as u32)) << 1u32) + ((v
            >> k) & 1u32)) == (v >> k),
        (v & (((1u32 << 0u32) - 1u32) as u32)) == 0,
        n <= 30 && v < (1u32 << n) ==> (v >> n) == 0,
        (v >> 0u32) == v,
{
}

} // verus!
