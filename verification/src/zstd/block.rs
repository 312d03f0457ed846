//! Block segmentation and serialization (RFC 8478, sections 3.1.1.2 and
//! 3.1.1.3).
use vstd::prelude::*;

verus! {

/// Largest decompressed size of one block.
pub const MAX_BLOCK: usize = 131072;

/// `Block_Type` of a block stored verbatim.
pub const RAW: u8 = 0;

/// `Block_Type` of a block that is one byte repeated.
pub const RLE: u8 = 1;

/// The three bytes of a block header: the last-block flag in bit 0, the
/// block type in bits 1-2 and the size above them, little-endian.
pub open spec fn header_bytes(size: nat, kind: u8, last: bool) -> Seq<u8> {
    let w = size * 8 + kind * 2 + if last {
        1nat
    } else {
        0nat
    };
    seq![(w % 256) as u8, ((w / 256) % 256) as u8, ((w / 65536) % 256) as u8]
}

/// Every byte of `raw` is its first.
pub open spec fn one_byte_repeated(raw: Seq<u8>) -> bool {
    forall|i: int| 0 <= i < raw.len() ==> #[trigger] raw[i] == raw[0]
}

/// One block carrying `raw`: an RLE block where it is one byte repeated,
/// else a raw block.
pub open spec fn block_bytes(raw: Seq<u8>, last: bool) -> Seq<u8> {
    if one_byte_repeated(raw) {
        header_bytes(raw.len(), RLE, last).push(raw[0])
    } else {
        header_bytes(raw.len(), RAW, last) + raw
    }
}

/// The blocks that carry `input[at..]`, cut every `MAX_BLOCK` bytes, the
/// final one marked last.
pub open spec fn blocks_from(input: Seq<u8>, at: nat) -> Seq<u8>
    decreases input.len() - at,
{
    if at >= input.len() {
        Seq::empty()
    } else {
        let end = if at + MAX_BLOCK < input.len() {
            (at + MAX_BLOCK) as nat
        } else {
            input.len() as nat
        };
        block_bytes(input.subrange(at as int, end as int), end == input.len()) + blocks_from(
            input,
            end,
        )
    }
}

/// Writes every block of the frame, marking the last one.
pub fn write_all(out: &mut Vec<u8>, input: &[u8])
    requires
        old(out)@.len() + 4 * input@.len() + 8 < usize::MAX,
    ensures
        final(out)@ == old(out)@ + blocks_from(input@, 0),
{
    let mut at: usize = 0;
    while at < input.len()
        invariant
            at <= input@.len(),
            out@ + blocks_from(input@, at as nat) == old(out)@ + blocks_from(input@, 0),
            out@.len() <= old(out)@.len() + 4 * at,
            old(out)@.len() + 4 * input@.len() + 8 < usize::MAX,
        decreases input@.len() - at,
    {
        let end = if input.len() - at > MAX_BLOCK {
            at + MAX_BLOCK
        } else {
            input.len()
        };
        let ghost before = out@;
        write_one(out, &input[at..end], end == input.len());
        proof {
            assert(blocks_from(input@, at as nat) == block_bytes(
                input@.subrange(at as int, end as int),
                end == input@.len(),
            ) + blocks_from(input@, end as nat));
            assert(out@ + blocks_from(input@, end as nat) == before + blocks_from(
                input@,
                at as nat,
            ));
        }
        at = end;
    }
}

/// Writes one block, as an RLE block where `raw` is one byte repeated
/// (a single byte that nothing else can beat), else as a raw block.
pub fn write_one(out: &mut Vec<u8>, raw: &[u8], last: bool)
    requires
        0 < raw@.len() <= MAX_BLOCK,
        old(out)@.len() + raw@.len() + 4 < usize::MAX,
    ensures
        final(out)@ == old(out)@ + block_bytes(raw@, last),
        final(out)@.len() <= old(out)@.len() + 4 * raw@.len(),
{
    let first = raw[0];
    let mut same = true;
    let mut i: usize = 0;
    while i < raw.len()
        invariant
            0 < raw@.len(),
            first == raw@[0],
            i <= raw@.len(),
            same <==> forall|j: int| 0 <= j < i ==> #[trigger] raw@[j] == raw@[0],
        decreases raw@.len() - i,
    {
        if raw[i] != first {
            same = false;
        }
        i = i + 1;
    }
    if same {
        write_header(out, raw.len(), RLE, last);
        out.push(first);
    } else {
        write_header(out, raw.len(), RAW, last);
        let mut k: usize = 0;
        let ghost start = out@;
        while k < raw.len()
            invariant
                k <= raw@.len(),
                out@ == start + raw@.subrange(0, k as int),
                start.len() + raw@.len() < usize::MAX,
            decreases raw@.len() - k,
        {
            out.push(raw[k]);
            k = k + 1;
            proof {
                assert(raw@.subrange(0, k as int) == raw@.subrange(0, k - 1).push(raw@[k - 1]));
            }
        }
        proof {
            assert(raw@.subrange(0, raw@.len() as int) == raw@);
        }
    }
}

/// Writes a block header.
pub fn write_header(out: &mut Vec<u8>, size: usize, kind: u8, last: bool)
    requires
        size <= MAX_BLOCK,
        kind <= 3,
        old(out)@.len() + 3 < usize::MAX,
    ensures
        final(out)@ == old(out)@ + header_bytes(size as nat, kind, last),
{
    let flag: u32 = if last {
        1
    } else {
        0
    };
    let word: u32 = (size as u32) * 8 + (kind as u32) * 2 + flag;
    let mid = word >> 8;
    proof {
        crate::bits::lemma_u32_bits(word);
        crate::bits::lemma_u32_bits(mid);
        vstd::arithmetic::div_mod::lemma_div_denominator(word as int, 256, 256);
    }
    out.push(word as u8);
    out.push(mid as u8);
    out.push((mid >> 8) as u8);
}

} // verus!
