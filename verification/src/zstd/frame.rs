//! Frame header and window sizing (RFC 8478, section 3.1.1.1), and a frame
//! of stored and RLE blocks.
use super::block::{blocks_from, write_all};
use crate::le::{le_bytes, push_le};
use crate::snappy::pow256;
use vstd::arithmetic::power2::{lemma2_to64, pow2};
use vstd::prelude::*;
use vstd::std_specs::bits::u64_leading_zeros;

verus! {

/// The frame magic number, `0xFD2FB528`, little-endian.
pub open spec fn magic_bytes() -> Seq<u8> {
    seq![0x28u8, 0xb5u8, 0x2fu8, 0xfdu8]
}

/// Largest window this encoder advertises, as a base-2 logarithm: eight
/// mebibytes, the size the format recommends every decoder support.
pub const MAX_WINDOW_LOG: u32 = 23;

/// How many bits it takes to write `x`.
pub open spec fn bit_length(x: nat) -> nat
    decreases x,
{
    if x == 0 {
        0
    } else {
        1 + bit_length(x / 2)
    }
}

/// A positive number lies between the powers of two around its bit length.
pub proof fn lemma_bit_length(x: nat)
    ensures
        x > 0 ==> pow2((bit_length(x) - 1) as nat) <= x < pow2(bit_length(x)),
        x == 0 ==> bit_length(x) == 0,
    decreases x,
{
    if x > 0 {
        lemma_bit_length(x / 2);
        vstd::arithmetic::power2::lemma_pow2_unfold(bit_length(x));
        if x / 2 > 0 {
            vstd::arithmetic::power2::lemma_pow2_unfold((bit_length(x) - 1) as nat);
        } else {
            lemma2_to64();
        }
    }
}

/// The number of bits in a 64-bit word, read off its leading zeros.
pub fn bit_len(x: u64) -> (r: u32)
    ensures
        r == bit_length(x as nat),
        r <= 64,
{
    proof {
        lemma_leading_zeros(x);
    }
    64 - x.leading_zeros()
}

proof fn lemma_leading_zeros(x: u64)
    ensures
        64 - u64_leading_zeros(x) == bit_length(x as nat),
        u64_leading_zeros(x) <= 64,
    decreases x,
{
    reveal(u64_leading_zeros);
    if x > 0 {
        lemma_leading_zeros(x / 2);
    }
}

/// The window log for an input of `len` bytes: the smallest that covers
/// it, at least 10 (the format's 1 KiB floor) and at most
/// [`MAX_WINDOW_LOG`].
pub open spec fn window_log(len: nat) -> nat {
    let b = bit_length((len - 1) as nat);
    if b < 10 {
        10
    } else if b > MAX_WINDOW_LOG {
        MAX_WINDOW_LOG as nat
    } else {
        b
    }
}

/// The frame header for an input of `len` bytes.
///
/// Inputs below 256 bytes take the `Single_Segment_Flag`: the window
/// descriptor is dropped and the content size fits in one byte. Larger
/// inputs carry an explicit window and the narrowest content-size field
/// that holds their length (two bytes store `len - 256`).
pub open spec fn header_bytes(len: nat) -> Seq<u8> {
    if len < 256 {
        seq![0x20u8, len as u8]
    } else if len <= 65791 {
        seq![0x40u8, ((window_log(len) - 10) * 8) as u8] + le_bytes((len - 256) as nat, 2)
    } else if len <= u32::MAX {
        seq![0x80u8, ((window_log(len) - 10) * 8) as u8] + le_bytes(len, 4)
    } else {
        seq![0xc0u8, ((window_log(len) - 10) * 8) as u8] + le_bytes(len, 8)
    }
}

/// The window a frame of `len` bytes advertises.
pub open spec fn window_size(len: nat) -> nat {
    if len < 256 {
        if len == 0 {
            1
        } else {
            len
        }
    } else {
        pow2(window_log(len))
    }
}

/// The block that an empty frame carries: an empty raw block marked last.
pub open spec fn empty_block() -> Seq<u8> {
    seq![0x01u8, 0x00u8, 0x00u8]
}

/// One Zstandard frame that stores `input` in raw and RLE blocks.
pub open spec fn frame_bytes(input: Seq<u8>) -> Seq<u8> {
    magic_bytes() + header_bytes(input.len()) + if input.len() == 0 {
        empty_block()
    } else {
        blocks_from(input, 0)
    }
}

/// Encodes `input` as one Zstandard frame of raw and RLE blocks.
pub fn encode(input: &[u8]) -> (r: Vec<u8>)
    requires
        5 * input@.len() + 64 < usize::MAX,
    ensures
        r@ == frame_bytes(input@),
{
    let len = input.len();
    let mut out: Vec<u8> = Vec::new();
    out.push(0x28);
    out.push(0xb5);
    out.push(0x2f);
    out.push(0xfd);
    let _window = write_header(&mut out, len);
    if len == 0 {
        out.push(0x01);
        out.push(0x00);
        out.push(0x00);
        return out;
    }
    write_all(&mut out, input);
    out
}

/// Writes the frame header and returns the window size in bytes.
pub fn write_header(out: &mut Vec<u8>, len: usize) -> (window: usize)
    requires
        old(out)@.len() + 16 < usize::MAX,
    ensures
        final(out)@ == old(out)@ + header_bytes(len as nat),
        final(out)@.len() <= old(out)@.len() + 10,
        window == window_size(len as nat),
{
    if len < 256 {
        out.push(0x20);
        out.push(len as u8);
        return if len > 1 {
            len
        } else {
            1
        };
    }
    let log = ceil_log2(len);
    let log = if log > MAX_WINDOW_LOG {
        MAX_WINDOW_LOG
    } else {
        log
    };
    proof {
        lemma2_to64();
        assert(pow256(2) == 65536 && pow256(4) == 0x1_0000_0000) by {
            reveal_with_fuel(pow256, 5);
        }
    }
    if len <= 65791 {
        out.push(0x40);
        out.push(((log - 10) * 8) as u8);
        push_le(out, (len - 256) as u64, 2);
    } else if len as u64 <= 0xffff_ffff {
        out.push(0x80);
        out.push(((log - 10) * 8) as u8);
        push_le(out, len as u64, 4);
    } else {
        out.push(0xc0);
        out.push(((log - 10) * 8) as u8);
        proof {
            assert(pow256(8) == 0x1_0000_0000_0000_0000) by {
                reveal_with_fuel(pow256, 9);
            }
        }
        push_le(out, len as u64, 8);
    }
    proof {
        if log < 23 {
            vstd::arithmetic::power2::lemma_pow2_strictly_increases(log as nat, 23);
        }
        vstd::bits::lemma_usize_shl_is_mul(1, log as usize);
    }
    1usize << (log as usize)
}

/// Smallest window log that covers `n` bytes, never below the format's
/// 1 KiB floor.
pub fn ceil_log2(n: usize) -> (r: u32)
    requires
        n > 0,
    ensures
        r == (if bit_length((n - 1) as nat) < 10 {
            10
        } else {
            bit_length((n - 1) as nat)
        }),
{
    let b = bit_len((n - 1) as u64);
    if b < 10 {
        10
    } else {
        b
    }
}

} // verus!
