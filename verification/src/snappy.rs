use crate::error::Error;
use crate::varint::{leb_value, varint_bytes};
use vstd::prelude::*;

verus! {

// --- the block format, as spec ---

/// `256^k`.
pub open spec fn pow256(k: nat) -> nat
    decreases k,
{
    if k == 0 {
        1
    } else {
        256 * pow256((k - 1) as nat)
    }
}

/// The little-endian number that the bytes of `b` spell.
pub open spec fn le_int(b: Seq<u8>) -> nat
    decreases b.len(),
{
    if b.len() == 0 {
        0
    } else {
        b[0] as nat + 256 * le_int(b.drop_first())
    }
}

/// Where the length preamble (a LEB128 varint of at most five bytes) ends,
/// scanning from byte `i`.
pub open spec fn preamble_end(s: Seq<u8>, i: nat) -> Result<nat, Error>
    decreases s.len() - i,
{
    if i >= s.len() {
        Err(Error::Truncated)
    } else if i == 5 {
        Err(Error::Corrupt)
    } else if s[i as int] < 128 {
        Ok(i)
    } else {
        preamble_end(s, i + 1)
    }
}

/// The preamble's value (kept to 32 bits) and length.
pub open spec fn preamble_read(s: Seq<u8>) -> Result<(u32, usize), Error> {
    match preamble_end(s, 0) {
        Ok(t) => Ok(((leb_value(s, t + 1) % 0x1_0000_0000) as u32, (t + 1) as usize)),
        Err(e) => Err(e),
    }
}

/// `len` bytes copied from `offset` back from the end of `out`, one at a
/// time, so a copy may overlap what it is producing.
pub open spec fn copy_bytes(out: Seq<u8>, offset: nat, len: nat) -> Seq<u8> {
    Seq::new(len, |k: int| out[out.len() - offset + k % (offset as int)])
}

/// The result of a copy element.
pub open spec fn copy_step(out: Seq<u8>, offset: nat, len: nat, next: nat) -> Result<
    (nat, Seq<u8>),
    Error,
> {
    if offset == 0 || offset > out.len() {
        Err(Error::Corrupt)
    } else {
        Ok((next, out + copy_bytes(out, offset, len)))
    }
}

/// Decodes the element whose tag is at `s[pos]`, given the output so far:
/// where the next element starts, and the output after this one.
pub open spec fn tag_step(s: Seq<u8>, pos: nat, out: Seq<u8>) -> Result<(nat, Seq<u8>), Error>
    recommends
        pos < s.len(),
{
    let tag = s[pos as int];
    let p = pos + 1;
    let kind = tag % 4;
    let high = (tag / 4) as nat;
    if kind == 0 {
        if high >= 60 {
            let extra = (high - 59) as nat;
            if p + extra > s.len() {
                Err(Error::Truncated)
            } else {
                let len = le_int(s.subrange(p as int, (p + extra) as int)) + 1;
                let start = p + extra;
                if start + len > s.len() {
                    Err(Error::Truncated)
                } else {
                    Ok(((start + len) as nat, out + s.subrange(start as int, (start + len) as int)))
                }
            }
        } else {
            let len = high + 1;
            if p + len > s.len() {
                Err(Error::Truncated)
            } else {
                Ok(((p + len) as nat, out + s.subrange(p as int, (p + len) as int)))
            }
        }
    } else if kind == 1 {
        let len = 4 + high % 8;
        if p >= s.len() {
            Err(Error::Truncated)
        } else {
            copy_step(out, (tag / 32) as nat * 256 + s[p as int] as nat, len, p + 1)
        }
    } else if kind == 2 {
        if p + 2 > s.len() {
            Err(Error::Truncated)
        } else {
            copy_step(
                out,
                le_int(s.subrange(p as int, (p + 2) as int)),
                high + 1,
                p + 2,
            )
        }
    } else {
        if p + 4 > s.len() {
            Err(Error::Truncated)
        } else {
            copy_step(
                out,
                le_int(s.subrange(p as int, (p + 4) as int)),
                high + 1,
                p + 4,
            )
        }
    }
}

/// Decodes the elements of `s` from `pos` on, continuing `out`; the output
/// may never grow past `limit`, and must end exactly there.
pub open spec fn run(s: Seq<u8>, pos: nat, out: Seq<u8>, limit: nat) -> Result<Seq<u8>, Error>
    decreases s.len() - pos,
{
    if pos >= s.len() {
        if out.len() == limit {
            Ok(out)
        } else {
            Err(Error::Corrupt)
        }
    } else {
        match tag_step(s, pos, out) {
            Err(e) => Err(e),
            Ok((next, out2)) => {
                if out2.len() > limit {
                    Err(Error::Corrupt)
                } else if next <= pos {
                    Err(Error::Corrupt)
                } else {
                    run(s, next, out2, limit)
                }
            },
        }
    }
}

/// What decoding a whole block gives: the preamble must name `orig_len`,
/// and the elements must produce exactly that many bytes.
pub open spec fn snappy_decode(s: Seq<u8>, orig_len: nat) -> Result<Seq<u8>, Error> {
    match preamble_read(s) {
        Err(e) => Err(e),
        Ok((declared, used)) => {
            if declared as nat != orig_len {
                Err(Error::Corrupt)
            } else {
                run(s, used as nat, Seq::<u8>::empty(), orig_len)
            }
        },
    }
}

// --- decoder ---

proof fn lemma_le_int_push(b: Seq<u8>, x: u8)
    ensures
        le_int(b.push(x)) == le_int(b) + x as nat * pow256(b.len()),
    decreases b.len(),
{
    if b.len() == 0 {
        assert(b.push(x).drop_first() == Seq::<u8>::empty());
        assert(le_int(Seq::<u8>::empty()) == 0);
        assert(b.push(x)[0] == x);
        assert(pow256(0) == 1);
    } else {
        assert(b.push(x).drop_first() == b.drop_first().push(x));
        assert(b.push(x)[0] == b[0]);
        lemma_le_int_push(b.drop_first(), x);
        assert(le_int(b.push(x)) == b[0] as nat + 256 * le_int(b.drop_first().push(x)));
        assert(le_int(b) == b[0] as nat + 256 * le_int(b.drop_first()));
        assert(256 * (x as nat * pow256((b.len() - 1) as nat)) == x as nat * pow256(b.len()))
            by (nonlinear_arith)
            requires
                pow256(b.len()) == 256 * pow256((b.len() - 1) as nat),
        ;
    }
}

proof fn lemma_pow256_values()
    ensures
        pow256(0) == 1,
        pow256(1) == 0x100,
        pow256(2) == 0x10000,
        pow256(3) == 0x1000000,
        pow256(4) == 0x1_0000_0000,
{
    reveal_with_fuel(pow256, 5);
}

/// Reads `n` little-endian bytes at `input[pos..]`.
fn read_le(input: &[u8], pos: usize, n: usize) -> (v: u64)
    requires
        n <= 4,
        pos + n <= input.len(),
    ensures
        v == le_int(input@.subrange(pos as int, pos + n)),
        v < 0x1_0000_0000,
{
    let mut v: u64 = 0;
    let mut scale: u64 = 1;
    let mut k: usize = 0;
    proof {
        lemma_pow256_values();
        assert(input@.subrange(pos as int, pos as int) == Seq::<u8>::empty());
    }
    while k < n
        invariant
            k <= n,
            n <= 4,
            pos + n <= input.len(),
            v == le_int(input@.subrange(pos as int, pos + k)),
            scale == pow256(k as nat),
            v < scale,
            pow256(0) == 1,
            pow256(1) == 0x100,
            pow256(2) == 0x10000,
            pow256(3) == 0x1000000,
            pow256(4) == 0x1_0000_0000,
        decreases n - k,
    {
        let b = input[pos + k];
        proof {
            assert(input@.subrange(pos as int, pos + k + 1) == input@.subrange(
                pos as int,
                pos + k,
            ).push(b));
            lemma_le_int_push(input@.subrange(pos as int, pos + k), b);
        }
        assert(v + b as u64 * scale < scale * 256) by (nonlinear_arith)
            requires
                v < scale,
                b < 256,
        ;
        v = v + b as u64 * scale;
        scale = scale * 256;
        k = k + 1;
    }
    v
}

proof fn lemma_preamble_end_bounds(s: Seq<u8>, i: nat)
    requires
        i <= 5,
    ensures
        preamble_end(s, i) matches Ok(t) ==> i <= t && t < s.len() && t <= 4,
    decreases s.len() - i,
{
    if i < s.len() && i != 5 && s[i as int] >= 128 {
        lemma_preamble_end_bounds(s, i + 1);
    }
}

/// Reads the length preamble: a LEB128 varint of at most five bytes, kept
/// to 32 bits.
fn read_uvarint(input: &[u8]) -> (r: Result<(u32, usize), Error>)
    ensures
        r == preamble_read(input@),
        r matches Ok((_, n)) ==> 1 <= n <= 5 && n <= input@.len(),
{
    let mut value: u64 = 0;
    let mut scale: u64 = 1;
    let mut i: usize = 0;
    proof {
        lemma_preamble_end_bounds(input@, 0);
    }
    while i < input.len()
        invariant
            i <= input.len(),
            i <= 5,
            preamble_end(input@, 0) == preamble_end(input@, i as nat),
            value == leb_value(input@, i as nat),
            scale == crate::varint::pow128(i as nat),
            scale <= 0x8_0000_0000,
            preamble_end(input@, 0) matches Ok(t) ==> t < input@.len() && t <= 4,
        decreases input.len() - i,
    {
        let b = input[i];
        if i == 5 {
            return Err(Error::Corrupt);
        }
        let digit = (b & 0x7f) as u64;
        assert(digit == b % 128) by {
            crate::bits::lemma_byte_bits(b);
        }
        proof {
            crate::varint::lemma_leb_value_step(input@, i as nat);
            crate::varint::lemma_leb_value_bound(input@, i as nat);
        }
        assert(value + digit * scale < scale * 128) by (nonlinear_arith)
            requires
                value < scale,
                digit < 128,
        ;
        value = value + digit * scale;
        if b & 0x80 == 0 {
            assert(b & 0x80 == 0 ==> b < 128) by {
            crate::bits::lemma_byte_bits(b);
        }
            let r = (value & 0xffff_ffff) as u32;
            assert(r == value % 0x1_0000_0000) by {
            crate::bits::lemma_u64_bits(value);
        }
            return Ok((r, i + 1));
        }
        assert(b & 0x80 != 0 ==> b >= 128) by {
            crate::bits::lemma_byte_bits(b);
        }
        proof {
            reveal_with_fuel(crate::varint::pow128, 6);
        }
        scale = scale * 128;
        i = i + 1;
    }
    Err(Error::Truncated)
}

/// Appends `len` bytes copied from `offset` back, one byte at a time so an
/// overlapping copy repeats what it has just produced.
fn copy_match(out: &mut Vec<u8>, offset: usize, len: usize) -> (r: Result<(), Error>)
    ensures
        offset == 0 || offset > old(out)@.len() ==> r == Err::<(), Error>(Error::Corrupt)
            && final(out)@ == old(out)@,
        !(offset == 0 || offset > old(out)@.len()) ==> r is Ok && final(out)@ == old(out)@
            + copy_bytes(old(out)@, offset as nat, len as nat),
{
    if offset == 0 || offset > out.len() {
        return Err(Error::Corrupt);
    }
    let start = out.len() - offset;
    let ghost base = out@;
    let mut k: usize = 0;
    while k < len
        invariant
            k <= len,
            base == old(out)@,
            start == base.len() - offset,
            1 <= offset <= base.len(),
            out@ == base + copy_bytes(base, offset as nat, k as nat),
        decreases len - k,
    {
        proof {
            vstd::arithmetic::div_mod::lemma_mod_bound(k as int, offset as int);
            if k >= offset {
                vstd::arithmetic::div_mod::lemma_mod_sub_multiples_vanish(k as int, offset as int);
                assert(((k - offset) as int) % (offset as int) == (k as int) % (offset as int));
            } else {
                vstd::arithmetic::div_mod::lemma_small_mod(k as nat, offset as nat);
            }
        }
        let cur = out.len();
        assert(cur == base.len() + k);
        let byte = out[start + k];
        out.push(byte);
        assert(out@ == base + copy_bytes(base, offset as nat, (k + 1) as nat));
        k = k + 1;
    }
    Ok(())
}

/// Appends `input[start..end]` to `out`.
pub fn push_range(out: &mut Vec<u8>, input: &[u8], start: usize, end: usize)
    requires
        start <= end <= input.len(),
    ensures
        final(out)@ == old(out)@ + input@.subrange(start as int, end as int),
{
    let mut i = start;
    while i < end
        invariant
            start <= i <= end,
            end <= input.len(),
            out@ == old(out)@ + input@.subrange(start as int, i as int),
        decreases end - i,
    {
        out.push(input[i]);
        assert(input@.subrange(start as int, i + 1) == input@.subrange(start as int, i as int).push(
            input@[i as int],
        ));
        i = i + 1;
    }
}

/// Decompresses a Snappy block, which must expand to exactly `orig_len`
/// bytes: the preamble must name `orig_len`, no element may read past the
/// input or copy from before the start of the output, and the output may
/// never grow past `orig_len`.
pub fn decompress(input: &[u8], orig_len: usize) -> (r: Result<Vec<u8>, Error>)
    ensures
        match r {
            Ok(v) => snappy_decode(input@, orig_len as nat) == Ok::<Seq<u8>, Error>(v@),
            Err(e) => snappy_decode(input@, orig_len as nat) == Err::<Seq<u8>, Error>(e),
        },
{
    let (declared, mut pos) = match read_uvarint(input) {
        Ok(p) => p,
        Err(e) => return Err(e),
    };
    if declared as usize != orig_len {
        return Err(Error::Corrupt);
    }
    let mut out: Vec<u8> = Vec::new();
    let ghost goal = snappy_decode(input@, orig_len as nat);
    while pos < input.len()
        invariant
            pos <= input.len(),
            out@.len() <= orig_len,
            run(input@, pos as nat, out@, orig_len as nat) == goal,
            goal == snappy_decode(input@, orig_len as nat),
        decreases input.len() - pos,
    {
        let ghost before = out@;
        let tag = input[pos];
        let p = pos + 1;
        let kind = tag & 3;
        let high = tag >> 2;
        assert(kind == tag % 4 && high == tag / 4 && (high & 7) == (tag / 4) % 8 && (tag >> 5)
            == tag / 32) by {
            crate::bits::lemma_byte_bits(tag);
        }
        let ghost step = tag_step(input@, pos as nat, out@);
        let next: usize;
        if kind == 0 {
            let mut start = p;
            let len: usize;
            if high >= 60 {
                let extra = (high - 59) as usize;
                if extra > input.len() - p {
                    return Err(Error::Truncated);
                }
                let v = read_le(input, p, extra);
                start = p + extra;
                if v >= (input.len() - start) as u64 {
                    return Err(Error::Truncated);
                }
                len = v as usize + 1;
            } else {
                len = high as usize + 1;
                if len > input.len() - p {
                    return Err(Error::Truncated);
                }
            }
            push_range(&mut out, input, start, start + len);
            next = start + len;
        } else if kind == 1 {
            let len = 4 + (high & 7) as usize;
            if p >= input.len() {
                return Err(Error::Truncated);
            }
            let offset = (tag >> 5) as usize * 256 + input[p] as usize;
            match copy_match(&mut out, offset, len) {
                Ok(()) => {},
                Err(e) => return Err(e),
            }
            next = p + 1;
        } else if kind == 2 {
            let len = 1 + high as usize;
            if 2 > input.len() - p {
                return Err(Error::Truncated);
            }
            let offset = read_le(input, p, 2) as usize;
            match copy_match(&mut out, offset, len) {
                Ok(()) => {},
                Err(e) => return Err(e),
            }
            next = p + 2;
        } else {
            let len = 1 + high as usize;
            if 4 > input.len() - p {
                return Err(Error::Truncated);
            }
            let offset = read_le(input, p, 4) as usize;
            match copy_match(&mut out, offset, len) {
                Ok(()) => {},
                Err(e) => return Err(e),
            }
            next = p + 4;
        }
        assert(step == Ok::<(nat, Seq<u8>), Error>((next as nat, out@)));
        if out.len() > orig_len {
            return Err(Error::Corrupt);
        }
        pos = next;
    }
    if out.len() != orig_len {
        return Err(Error::Corrupt);
    }
    Ok(out)
}

// --- encoder ---

/// The little-endian digits of `v`, with no trailing zero byte.
pub open spec fn le_digits(v: nat) -> Seq<u8>
    decreases v,
{
    if v == 0 {
        Seq::<u8>::empty()
    } else {
        seq![(v % 256) as u8] + le_digits(v / 256)
    }
}

/// The literal element carrying `lit` (which must not be empty): a tag
/// holding `len - 1` in its upper six bits, or, from sixty on, the number
/// of little-endian bytes of `len - 1` that follow the tag.
pub open spec fn literal_tags(lit: Seq<u8>) -> Seq<u8> {
    let n = (lit.len() - 1) as nat;
    if n < 60 {
        seq![(n * 4) as u8] + lit
    } else {
        seq![((59 + le_digits(n).len()) * 4) as u8] + le_digits(n) + lit
    }
}

/// The copy elements for a match of `len` bytes at `offset`: two-byte-offset
/// copies of at most sixty-four bytes each.
pub open spec fn copy_tags(offset: nat, len: nat) -> Seq<u8>
    decreases len,
{
    if len == 0 {
        Seq::<u8>::empty()
    } else {
        let chunk: nat = if len < 64 {
            len
        } else {
            64
        };
        seq![(2 + (chunk - 1) * 4) as u8, (offset % 256) as u8, ((offset / 256) % 256) as u8]
            + copy_tags(offset, (len - chunk) as nat)
    }
}

/// Appends the length preamble: `v` as a LEB128 varint.
fn put_uvarint(out: &mut Vec<u8>, v: u32)
    ensures
        final(out)@ == old(out)@ + varint_bytes(v as nat),
{
    let mut v = v;
    let ghost v0 = v;
    while v >= 0x80
        invariant
            out@ + varint_bytes(v as nat) == old(out)@ + varint_bytes(v0 as nat),
        decreases v,
    {
        let ghost prev = v;
        let byte = (v as u8) | 0x80;
        assert(byte == prev % 128 + 128 && (prev >> 7) == prev / 128) by {
            crate::bits::lemma_u32_bits(prev);
        }
        out.push(byte);
        v = v >> 7;
        assert(varint_bytes(prev as nat) == seq![byte] + varint_bytes(v as nat));
    }
    assert(varint_bytes(v as nat) == seq![v as u8]);
    out.push(v as u8);
}

/// Appends the literal element carrying `lit`.
fn emit_literals(out: &mut Vec<u8>, lit: &[u8])
    ensures
        lit@.len() == 0 ==> final(out)@ == old(out)@,
        1 <= lit@.len() <= 0x1_0000_0000 ==> final(out)@ == old(out)@ + literal_tags(lit@),
        final(out)@.len() >= old(out)@.len(),
{
    if lit.len() == 0 {
        return;
    }
    let n = lit.len() - 1;
    if n < 60 {
        out.push((n as u8) << 2);
        assert(((n as u8) << 2) == (n * 4) as u8) by (bit_vector)
            requires
                n < 60,
        ;
    } else {
        let mut bytes = [0u8; 4];
        let mut count: usize = 0;
        let mut v = n as u32;
        let ghost v0 = v;
        proof {
            lemma_pow256_values();
            assert(bytes@.subrange(0, 0) == Seq::<u8>::empty());
        }
        while v > 0
            invariant
                count <= 4,
                bytes@.len() == 4,
                v as nat * pow256(count as nat) + le_int(bytes@.subrange(0, count as int)) == v0,
                le_digits(v0 as nat) == bytes@.subrange(0, count as int) + le_digits(v as nat),
                pow256(0) == 1,
                pow256(1) == 0x100,
                pow256(2) == 0x10000,
                pow256(3) == 0x1000000,
                pow256(4) == 0x1_0000_0000,
            decreases v,
        {
            if count == 4 {
                assert(v as nat * pow256(4) >= 0x1_0000_0000) by (nonlinear_arith)
                    requires
                        v >= 1,
                        pow256(4) == 0x1_0000_0000,
                ;
                assert(false);
            }
            let ghost prev = v;
            let ghost pre = bytes@.subrange(0, count as int);
            let b = v as u8;
            assert(b == prev % 256 && (prev >> 8) == prev / 256) by {
            crate::bits::lemma_u32_bits(prev);
        }
            bytes[count] = b;
            v = v >> 8;
            proof {
                assert(bytes@.subrange(0, count + 1) == pre.push(b));
                lemma_le_int_push(pre, b);
                assert(le_digits(prev as nat) == seq![b] + le_digits(v as nat));
                assert(prev as nat * pow256(count as nat) == v as nat * pow256((count + 1) as nat)
                    + b as nat * pow256(count as nat)) by (nonlinear_arith)
                    requires
                        pow256((count + 1) as nat) == 256 * pow256(count as nat),
                        prev == 256 * v + b,
                ;
            }
            count = count + 1;
        }
        let tag = ((59 + count) as u8) << 2;
        assert(tag == ((59 + count) * 4) as u8) by (bit_vector)
            requires
                count <= 4,
                tag == ((59 + count) as u8) << 2,
        ;
        out.push(tag);
        let mut k: usize = 0;
        let ghost mid = out@;
        while k < count
            invariant
                k <= count <= 4,
                bytes@.len() == 4,
                out@ == mid + bytes@.subrange(0, k as int),
            decreases count - k,
        {
            out.push(bytes[k]);
            assert(bytes@.subrange(0, k + 1) == bytes@.subrange(0, k as int).push(bytes@[k as int]));
            k = k + 1;
        }
        proof {
            assert(le_digits(0) == Seq::<u8>::empty());
            if lit@.len() <= 0x1_0000_0000 {
                assert(v0 == n);
                assert(le_digits(n as nat) == bytes@.subrange(0, count as int));
            }
        }
    }
    crate::entry::extend_bytes(out, lit);
}

/// Appends the copy elements for a match of `len` bytes at `offset`.
fn emit_copy(out: &mut Vec<u8>, offset: usize, len: usize)
    requires
        offset < 0x10000,
    ensures
        final(out)@ == old(out)@ + copy_tags(offset as nat, len as nat),
{
    let mut len = len;
    let ghost l0 = len;
    while len > 0
        invariant
            offset < 0x10000,
            out@ + copy_tags(offset as nat, len as nat) == old(out)@ + copy_tags(
                offset as nat,
                l0 as nat,
            ),
        decreases len,
    {
        let ghost before = out@;
        let ghost prev = len;
        let chunk = if len < 64 {
            len
        } else {
            64
        };
        let t = 0b10 | (((chunk - 1) as u8) << 2);
        let lo = (offset & 0xff) as u8;
        let hi = ((offset >> 8) & 0xff) as u8;
        assert(t == (2 + (chunk - 1) * 4) as u8) by (bit_vector)
            requires
                1 <= chunk <= 64,
                t == 0b10 | (((chunk - 1) as u8) << 2),
        ;
        assert(lo == (offset % 256) as u8 && hi == ((offset / 256) % 256) as u8) by (bit_vector)
            requires
                lo == (offset & 0xff) as u8,
                hi == ((offset >> 8) & 0xff) as u8,
        ;
        out.push(t);
        out.push(lo);
        out.push(hi);
        len = len - chunk;
        assert(copy_tags(offset as nat, prev as nat) == seq![t, lo, hi] + copy_tags(
            offset as nat,
            len as nat,
        ));
        assert(out@ == before + seq![t, lo, hi]);
    }
}

// --- why the encoder's output decodes ---

proof fn lemma_le_digits(v: nat, k: nat)
    requires
        v < pow256(k),
    ensures
        le_int(le_digits(v)) == v,
        le_digits(v).len() <= k,
        v > 0 ==> le_digits(v).len() >= 1,
    decreases v,
{
    if v > 0 {
        if k == 0 {
            assert(pow256(0) == 1);
            assert(false);
        }
        assert(v / 256 < pow256((k - 1) as nat)) by (nonlinear_arith)
            requires
                v < pow256(k),
                pow256(k) == 256 * pow256((k - 1) as nat),
        ;
        lemma_le_digits(v / 256, (k - 1) as nat);
        let d = le_digits(v);
        assert(d.drop_first() == le_digits(v / 256));
        assert(d[0] == (v % 256) as u8);
    } else {
        assert(le_int(Seq::<u8>::empty()) == 0);
    }
}

/// A literal element decodes to its bytes.
proof fn lemma_literal_run(s: Seq<u8>, pos: nat, out: Seq<u8>, lit: Seq<u8>, limit: nat)
    requires
        1 <= lit.len() <= 0x1_0000_0000,
        pos + literal_tags(lit).len() <= s.len(),
        s.subrange(pos as int, (pos + literal_tags(lit).len()) as int) == literal_tags(lit),
        out.len() + lit.len() <= limit,
    ensures
        run(s, pos, out, limit) == run(s, pos + literal_tags(lit).len(), out + lit, limit),
{
    let t = literal_tags(lit);
    let n = (lit.len() - 1) as nat;
    assert(s[pos as int] == t[0]);
    let p = pos + 1;
    if n < 60 {
        assert(t[0] == (n * 4) as u8);
        assert((n * 4) as u8 % 4 == 0 && (n * 4) as u8 / 4 == n);
        assert(s.subrange(p as int, (p + lit.len()) as int) == t.subrange(1, 1 + lit.len() as int));
        assert(t.subrange(1, 1 + lit.len() as int) == lit);
    } else {
        lemma_pow256_values();
        lemma_le_digits(n, 4);
        let d = le_digits(n);
        let c = d.len();
        assert(1 <= c <= 4);
        assert(t[0] == ((59 + c) * 4) as u8);
        assert(((59 + c) * 4) as u8 % 4 == 0 && ((59 + c) * 4) as u8 / 4 == 59 + c);
        assert(s.subrange(p as int, (p + c) as int) == t.subrange(1, 1 + c as int));
        assert(t.subrange(1, 1 + c as int) == d);
        assert(s.subrange((p + c) as int, (p + c + lit.len()) as int) == t.subrange(1 + c as int, 1 + c as int + lit.len() as int));
        assert(t.subrange(1 + c as int, 1 + c as int + lit.len() as int) == lit);
    }
}

/// A two-byte-offset copy element of `c` bytes decodes as that copy.
proof fn lemma_copy_chunk_step(s: Seq<u8>, pos: nat, out: Seq<u8>, offset: nat, c: nat)
    requires
        1 <= c <= 64,
        1 <= offset <= out.len(),
        offset < 0x10000,
        pos + 3 <= s.len(),
        s[pos as int] == (2 + (c - 1) * 4) as u8,
        s[pos as int + 1] == (offset % 256) as u8,
        s[pos as int + 2] == ((offset / 256) % 256) as u8,
    ensures
        tag_step(s, pos, out) == Ok::<(nat, Seq<u8>), Error>(
            (pos + 3, out + copy_bytes(out, offset, c)),
        ),
{
    let tag = s[pos as int];
    assert(tag % 4 == 2 && tag / 4 == c - 1);
    let b = s.subrange(pos as int + 1, pos as int + 3);
    assert(b.drop_first().drop_first() == Seq::<u8>::empty());
    assert(le_int(Seq::<u8>::empty()) == 0);
    assert(b.drop_first()[0] == b[1]);
    assert(le_int(b.drop_first()) == b[1] as nat + 256 * le_int(b.drop_first().drop_first()));
    assert(le_int(b) == b[0] as nat + 256 * le_int(b.drop_first()));
    assert(offset == offset % 256 + 256 * ((offset / 256) % 256));
}

proof fn lemma_copy_elem(input: Seq<u8>, p: nat, offset: nat, len: nat, k: nat)
    requires
        1 <= offset <= p,
        p + len <= input.len(),
        k < len,
        forall|j: int| 0 <= j < len ==> input[p - offset + j] == #[trigger] input[p + j],
    ensures
        input[p as int - offset as int + k as int % offset as int] == input[p as int + k as int],
    decreases k,
{
    if k < offset {
        vstd::arithmetic::div_mod::lemma_small_mod(k, offset);
    } else {
        lemma_copy_elem(input, p, offset, len, (k - offset) as nat);
        vstd::arithmetic::div_mod::lemma_mod_sub_multiples_vanish(k as int, offset as int);
        assert(input[p as int - offset as int + k as int] == input[p as int + k as int]);
    }
}

/// Copying `len` bytes from `offset` back reproduces the input wherever the
/// input repeats itself at that distance.
proof fn lemma_copy_matches(input: Seq<u8>, p: nat, offset: nat, len: nat)
    requires
        1 <= offset <= p,
        p + len <= input.len(),
        forall|j: int| 0 <= j < len ==> input[p - offset + j] == #[trigger] input[p + j],
    ensures
        input.subrange(0, p as int) + copy_bytes(input.subrange(0, p as int), offset, len)
            == input.subrange(0, (p + len) as int),
{
    let x = input.subrange(0, p as int);
    let lhs = x + copy_bytes(x, offset, len);
    assert forall|i: int| 0 <= i < p + len implies lhs[i] == input[i] by {
        if i >= p {
            let k = (i - p) as nat;
            lemma_copy_elem(input, p, offset, len, k);
            vstd::arithmetic::div_mod::lemma_mod_bound(k as int, offset as int);
        }
    }
    assert(lhs =~= input.subrange(0, (p + len) as int));
}

/// The copy elements for a match decode to the matched bytes.
proof fn lemma_copy_run(
    s: Seq<u8>,
    pos: nat,
    input: Seq<u8>,
    p: nat,
    offset: nat,
    len: nat,
    limit: nat,
)
    requires
        1 <= offset <= p,
        offset < 0x10000,
        p + len <= input.len(),
        p + len <= limit,
        forall|j: int| 0 <= j < len ==> input[p - offset + j] == #[trigger] input[p + j],
        pos + copy_tags(offset, len).len() <= s.len(),
        s.subrange(pos as int, (pos + copy_tags(offset, len).len()) as int) == copy_tags(offset, len),
    ensures
        run(s, pos, input.subrange(0, p as int), limit) == run(
            s,
            pos + copy_tags(offset, len).len(),
            input.subrange(0, (p + len) as int),
            limit,
        ),
    decreases len,
{
    if len > 0 {
        let c: nat = if len < 64 {
            len
        } else {
            64
        };
        let t = copy_tags(offset, len);
        let rest = copy_tags(offset, (len - c) as nat);
        assert(t == seq![(2 + (c - 1) * 4) as u8, (offset % 256) as u8, ((offset / 256) % 256) as u8]
            + rest);
        assert(s[pos as int] == t[0]);
        assert(s[pos as int + 1] == t[1]);
        assert(s[pos as int + 2] == t[2]);
        lemma_copy_chunk_step(s, pos, input.subrange(0, p as int), offset, c);
        lemma_copy_matches(input, p, offset, c);
        assert(s.subrange(pos as int + 3, pos as int + 3 + rest.len() as int) == t.subrange(3, t.len() as int));
        assert(t.subrange(3, t.len() as int) == rest);
        let p2 = p + c;
        assert forall|j: int| 0 <= j < len - c implies input[p2 - offset + j] == #[trigger] input[p2
            + j] by {
            assert(input[p - offset + (j + c)] == input[p + (j + c)]);
        }
        lemma_copy_run(s, pos + 3, input, p + c, offset, (len - c) as nat, limit);
    }
}

proof fn lemma_preamble_end_of_encoding(v: u32, rest: Seq<u8>, i: nat)
    requires
        i < varint_bytes(v as nat).len(),
        1 <= varint_bytes(v as nat).len() <= 5,
        forall|j: int|
            0 <= j < varint_bytes(v as nat).len() - 1 ==> varint_bytes(v as nat)[j] >= 128,
        varint_bytes(v as nat)[varint_bytes(v as nat).len() - 1] < 128,
    ensures
        preamble_end(varint_bytes(v as nat) + rest, i) == Ok::<nat, Error>(
            (varint_bytes(v as nat).len() - 1) as nat,
        ),
    decreases varint_bytes(v as nat).len() - i,
{
    let e = varint_bytes(v as nat);
    assert((e + rest)[i as int] == e[i as int]);
    if i < e.len() - 1 {
        lemma_preamble_end_of_encoding(v, rest, i + 1);
    }
}

/// The preamble the encoder writes reads back as the length it wrote.
proof fn lemma_preamble_roundtrip(v: u32, rest: Seq<u8>)
    ensures
        preamble_read(varint_bytes(v as nat) + rest) == Ok::<(u32, usize), Error>(
            (v, varint_bytes(v as nat).len() as usize),
        ),
        1 <= varint_bytes(v as nat).len() <= 5,
{
    crate::varint::lemma_pow128_values();
    crate::varint::lemma_varint_bytes_shape(v as nat, 9);
    assert(crate::varint::pow128(5) == 0x8_0000_0000) by {
        reveal_with_fuel(crate::varint::pow128, 6);
    }
    crate::varint::lemma_varint_bytes_len_bound(v as nat, 5);
    lemma_preamble_end_of_encoding(v, rest, 0);
    crate::varint::lemma_leb_value_prefix(varint_bytes(v as nat), rest, varint_bytes(v as nat).len());
}

/// After `out`, whatever follows decodes as if the output so far were
/// `done`.
#[verifier::opaque]
spec fn decodes_so_far(out: Seq<u8>, pre_len: nat, n: nat, done: Seq<u8>) -> bool {
    forall|t: Seq<u8>|
        #![trigger run(out + t, pre_len, Seq::<u8>::empty(), n)]
        run(out + t, pre_len, Seq::<u8>::empty(), n) == run(out + t, out.len(), done, n)
}

proof fn lemma_decodes_start(out: Seq<u8>, n: nat)
    ensures
        decodes_so_far(out, out.len(), n, Seq::<u8>::empty()),
{
    reveal(decodes_so_far);
}

proof fn lemma_decodes_after_literal(
    out0: Seq<u8>,
    pre_len: nat,
    n: nat,
    done: Seq<u8>,
    lit: Seq<u8>,
)
    requires
        decodes_so_far(out0, pre_len, n, done),
        1 <= lit.len() <= 0x1_0000_0000,
        done.len() + lit.len() <= n,
    ensures
        decodes_so_far(out0 + literal_tags(lit), pre_len, n, done + lit),
{
    reveal(decodes_so_far);
    let lt = literal_tags(lit);
    let out1 = out0 + lt;
    assert forall|t: Seq<u8>|
        #![trigger run(out1 + t, pre_len, Seq::<u8>::empty(), n)]
        run(out1 + t, pre_len, Seq::<u8>::empty(), n) == run(out1 + t, out1.len(), done + lit, n) by {
        assert(out1 + t == out0 + (lt + t));
        assert(run(out0 + (lt + t), pre_len, Seq::<u8>::empty(), n) == run(
            out0 + (lt + t),
            out0.len(),
            done,
            n,
        ));
        assert((out1 + t).subrange(out0.len() as int, (out0.len() + lt.len()) as int) == lt);
        lemma_literal_run(out1 + t, out0.len(), done, lit, n);
    }
}

proof fn lemma_decodes_after_copy(
    out1: Seq<u8>,
    pre_len: nat,
    input: Seq<u8>,
    i: nat,
    offset: nat,
    len: nat,
)
    requires
        decodes_so_far(out1, pre_len, input.len(), input.subrange(0, i as int)),
        1 <= offset <= i,
        offset < 0x10000,
        i + len <= input.len(),
        forall|j: int| 0 <= j < len ==> input[i - offset + j] == #[trigger] input[i + j],
    ensures
        decodes_so_far(
            out1 + copy_tags(offset, len),
            pre_len,
            input.len(),
            input.subrange(0, (i + len) as int),
        ),
{
    reveal(decodes_so_far);
    let n = input.len();
    let ct = copy_tags(offset, len);
    let out2 = out1 + ct;
    assert forall|t: Seq<u8>|
        #![trigger run(out2 + t, pre_len, Seq::<u8>::empty(), n)]
        run(out2 + t, pre_len, Seq::<u8>::empty(), n) == run(
            out2 + t,
            out2.len(),
            input.subrange(0, (i + len) as int),
            n,
        ) by {
        assert(out2 + t == out1 + (ct + t));
        assert(run(out1 + (ct + t), pre_len, Seq::<u8>::empty(), n) == run(
            out1 + (ct + t),
            out1.len(),
            input.subrange(0, i as int),
            n,
        ));
        assert((out2 + t).subrange(out1.len() as int, (out1.len() + ct.len()) as int) == ct);
        lemma_copy_run(out2 + t, out1.len(), input, i, offset, len, n);
    }
}

/// Once everything has been emitted, the block decodes to the input.
proof fn lemma_decodes_finish(out: Seq<u8>, input: Seq<u8>)
    requires
        input.len() <= u32::MAX,
        out.len() >= varint_bytes(input.len()).len(),
        out.subrange(0, varint_bytes(input.len()).len() as int) == varint_bytes(input.len()),
        decodes_so_far(out, varint_bytes(input.len()).len(), input.len(), input),
    ensures
        snappy_decode(out, input.len()) == Ok::<Seq<u8>, Error>(input),
{
    reveal(decodes_so_far);
    let pre = varint_bytes(input.len());
    let t = Seq::<u8>::empty();
    assert(out + t == out);
    assert(run(out + t, pre.len(), Seq::<u8>::empty(), input.len()) == run(
        out + t,
        out.len(),
        input,
        input.len(),
    ));
    assert(run(out, out.len(), input, input.len()) == Ok::<Seq<u8>, Error>(input));
    let rest = out.subrange(pre.len() as int, out.len() as int);
    assert(out == pre + rest);
    assert((input.len() as u32) as nat == input.len());
    lemma_preamble_roundtrip(input.len() as u32, rest);
    assert(preamble_read(out) == Ok::<(u32, usize), Error>((input.len() as u32, pre.len() as usize)));
    assert(run(out, pre.len(), Seq::<u8>::empty(), input.len()) == Ok::<Seq<u8>, Error>(input));
}

/// The four bytes at `pos` as a little-endian 32-bit word.
pub open spec fn word4(input: Seq<u8>, pos: int) -> u32 {
    (input[pos] as u32) | ((input[pos + 1] as u32) << 8) | ((input[pos + 2] as u32) << 16) | ((
    input[pos + 3] as u32) << 24)
}

/// The hash slot of the four bytes at `pos`: multiplicative hashing,
/// keeping the top fourteen bits of the 32-bit product.
pub open spec fn table_slot(input: Seq<u8>, pos: int) -> usize {
    (vstd::wrapping::u32_specs::wrapping_mul(word4(input, pos), 0x1e35a7bd) >> 18u32) as usize
}

/// A position in the hash table for the four bytes at `input[pos..]`.
fn hash4(input: &[u8], pos: usize) -> (h: usize)
    requires
        pos + 4 <= input.len(),
    ensures
        h == table_slot(input@, pos as int),
        h < 0x4000,
{
    let x = (input[pos] as u32) | ((input[pos + 1] as u32) << 8) | ((input[pos + 2] as u32) << 16)
        | ((input[pos + 3] as u32) << 24);
    let y = x.wrapping_mul(0x1e35a7bd) >> 18;
    assert(y < 0x4000) by (bit_vector)
        requires
            y == x.wrapping_mul(0x1e35a7bd) >> 18,
    ;
    y as usize
}

/// Compresses `input` into a Snappy block: the length preamble, then a
/// greedy parse into literal elements and two-byte-offset copies, matches
/// found through a hash table of four-byte sequences. Every block of at
/// most `u32::MAX` bytes decodes back to the input.
pub fn compress(input: &[u8]) -> (r: Vec<u8>)
    ensures
        input@.len() <= u32::MAX ==> snappy_decode(r@, input@.len()) == Ok::<Seq<u8>, Error>(
            input@,
        ),
        input@.len() <= u32::MAX ==> r@.len() >= varint_bytes(input@.len()).len() && r@.subrange(
            0,
            varint_bytes(input@.len()).len() as int,
        ) == varint_bytes(input@.len()),
        r@.len() >= 1,
{
    let mut out: Vec<u8> = Vec::new();
    put_uvarint(&mut out, input.len() as u32);
    let n = input.len();
    let ghost small = n <= u32::MAX;
    let ghost pre = varint_bytes(n as nat);
    proof {
        assert(varint_bytes((n as u32) as nat).len() >= 1);
        if small {
            assert((n as u32) as nat == n);
            assert(out@ == pre);
            assert(out@.subrange(0, pre.len() as int) == pre);
        }
        lemma_decodes_start(out@, n as nat);
    }
    if n == 0 {
        proof {
            assert(input@ == Seq::<u8>::empty());
            lemma_decodes_finish(out@, input@);
        }
        return out;
    }
    let mut table: Vec<usize> = Vec::new();
    while table.len() < 0x4000
        invariant
            table@.len() <= 0x4000,
            forall|j: int| 0 <= j < table@.len() ==> table@[j] == usize::MAX,
        decreases 0x4000 - table.len(),
    {
        table.push(usize::MAX);
    }
    let mut lit_start: usize = 0;
    let mut i: usize = 0;
    proof {
        assert(input@.subrange(0, 0) == Seq::<u8>::empty());
    }
    while n >= 4 && i <= n - 4
        invariant
            n == input@.len(),
            n >= 1,
            out@.len() >= 1,
            lit_start <= i <= n,
            table@.len() == 0x4000,
            forall|j: int| 0 <= j < 0x4000 ==> table@[j] == usize::MAX || table@[j] < i,
            small == (n <= u32::MAX),
            pre == varint_bytes(n as nat),
            small ==> out@.len() >= pre.len() && out@.subrange(0, pre.len() as int) == pre,
            small ==> decodes_so_far(
                out@,
                pre.len(),
                n as nat,
                input@.subrange(0, lit_start as int),
            ),
        decreases n - i,
    {
        let h = hash4(input, i);
        let cand = table[h];
        table[h] = i;
        let in_range = cand != usize::MAX && i - cand < 0x10000;
        if in_range && input[cand] == input[i] && input[cand + 1] == input[i + 1] && input[cand
            + 2] == input[i + 2] && input[cand + 3] == input[i + 3] {
            let ghost out0 = out@;
            emit_literals(&mut out, &input[lit_start..i]);
            proof {
                let lit = input@.subrange(lit_start as int, i as int);
                if small {
                    assert(input@.subrange(0, lit_start as int) + lit == input@.subrange(
                        0,
                        i as int,
                    ));
                    if lit.len() > 0 {
                        lemma_decodes_after_literal(
                            out0,
                            pre.len(),
                            n as nat,
                            input@.subrange(0, lit_start as int),
                            lit,
                        );
                    } else {
                        assert(input@.subrange(0, lit_start as int) == input@.subrange(0, i as int));
                    }
                    assert(out@.subrange(0, pre.len() as int) == out0.subrange(0, pre.len() as int));
                }
            }
            let ghost out1 = out@;
            let offset = i - cand;
            let mut len: usize = 4;
            while i + len < n && input[cand + len] == input[i + len]
                invariant
                    n == input@.len(),
                    cand < i,
                    offset == i - cand,
                    4 <= len,
                    i + len <= n,
                    forall|j: int| 0 <= j < len ==> input@[cand + j] == #[trigger] input@[i + j],
                decreases n - i - len,
            {
                len = len + 1;
            }
            emit_copy(&mut out, offset, len);
            proof {
                if small {
                    lemma_decodes_after_copy(
                        out1,
                        pre.len(),
                        input@,
                        i as nat,
                        offset as nat,
                        len as nat,
                    );
                    assert(out@.subrange(0, pre.len() as int) == out1.subrange(0, pre.len() as int));
                }
            }
            i = i + len;
            lit_start = i;
        } else {
            i = i + 1;
        }
    }
    let ghost out0 = out@;
    emit_literals(&mut out, &input[lit_start..n]);
    proof {
        if small {
            let lit = input@.subrange(lit_start as int, n as int);
            assert(input@.subrange(0, lit_start as int) + lit == input@);
            assert(input@.subrange(0, n as int) == input@);
            if lit.len() > 0 {
                lemma_decodes_after_literal(
                    out0,
                    pre.len(),
                    n as nat,
                    input@.subrange(0, lit_start as int),
                    lit,
                );
            } else {
                assert(input@.subrange(0, lit_start as int) == input@);
            }
            assert(out@.subrange(0, pre.len() as int) == out0.subrange(0, pre.len() as int));
            lemma_decodes_finish(out@, input@);
        }
    }
    out
}

// --- laws of the element format ---

/// What an overlapping copy produces: each new byte is the byte `offset`
/// places before it, and what was there stays.
pub open spec fn copied_from_back(out: Seq<u8>, out2: Seq<u8>, offset: nat, len: nat) -> bool {
    &&& out2.len() == out.len() + len
    &&& out2.subrange(0, out.len() as int) == out
    &&& forall|k: int| out.len() <= k < out2.len() ==> #[trigger] out2[k] == out2[k - offset]
}

proof fn lemma_copy_step_shape(out: Seq<u8>, offset: nat, len: nat, next: nat)
    ensures
        match copy_step(out, offset, len, next) {
            Ok((n, out2)) => offset != 0 && offset <= out.len() && n == next && copied_from_back(
                out,
                out2,
                offset,
                len,
            ),
            Err(e) => e == Error::Corrupt && (offset == 0 || offset > out.len()),
        },
{
    if offset != 0 && offset <= out.len() {
        let out2 = out + copy_bytes(out, offset, len);
        assert(out2.subrange(0, out.len() as int) =~= out);
        assert forall|k: int| out.len() <= k < out2.len() implies #[trigger] out2[k] == out2[k
            - offset] by {
            let j = k - out.len();
            let m = offset as int;
            if j < m {
                vstd::arithmetic::div_mod::lemma_small_mod(j as nat, offset);
            } else {
                vstd::arithmetic::div_mod::lemma_mod_sub_multiples_vanish(j, m);
                assert(-m + j == j - m);
            }
        }
    }
}

/// A literal element with its length in the tag (`tag >> 2` below 60): the
/// `(tag >> 2) + 1` bytes after the tag are appended to the output; where
/// the input ends before them, the block is truncated.
pub proof fn law_short_literal_element(s: Seq<u8>, pos: nat, out: Seq<u8>)
    requires
        pos < s.len(),
        s[pos as int] & 3 == 0,
        s[pos as int] >> 2 < 60,
    ensures
        ({
            let len = ((s[pos as int] >> 2) + 1) as nat;
            if pos + 1 + len <= s.len() {
                tag_step(s, pos, out) == Ok::<(nat, Seq<u8>), Error>(
                    (
                        pos + 1 + len,
                        out + s.subrange(pos + 1int, (pos + 1 + len) as int),
                    ),
                )
            } else {
                tag_step(s, pos, out) == Err::<(nat, Seq<u8>), Error>(Error::Truncated)
            }
        }),
{
    crate::bits::lemma_byte_bits(s[pos as int]);
}

/// A copy element with a one-byte offset (tag kind 1): it copies
/// `4 + ((tag >> 2) & 7)` bytes from `((tag >> 5) << 8) | next` bytes back,
/// `next` being the byte after the tag, and the element takes two bytes; an
/// offset of zero, or one reaching before the output, is corrupt.
pub proof fn law_copy1_element(s: Seq<u8>, pos: nat, out: Seq<u8>)
    requires
        pos < s.len(),
        s[pos as int] & 3 == 1,
    ensures
        pos + 1 == s.len() ==> tag_step(s, pos, out) == Err::<(nat, Seq<u8>), Error>(
            Error::Truncated,
        ),
        pos + 1 < s.len() ==> ({
            let tag = s[pos as int];
            let len = (4 + ((tag >> 2) & 7)) as nat;
            let offset = (tag >> 5) as nat * 256 + s[pos + 1int] as nat;
            match tag_step(s, pos, out) {
                Ok((next, out2)) => offset != 0 && offset <= out.len() && next == pos + 2
                    && copied_from_back(out, out2, offset, len),
                Err(e) => e == Error::Corrupt && (offset == 0 || offset > out.len()),
            }
        }),
{
    let tag = s[pos as int];
    crate::bits::lemma_byte_bits(tag);
    if pos + 1 < s.len() {
        let offset = (tag >> 5) as nat * 256 + s[pos + 1int] as nat;
        lemma_copy_step_shape(out, offset, (4 + ((tag >> 2) & 7)) as nat, pos + 2);
    }
}

/// A copy element with a two-byte offset (tag kind 2): it copies
/// `(tag >> 2) + 1` bytes from the little-endian offset in the two bytes
/// after the tag, and the element takes three bytes.
pub proof fn law_copy2_element(s: Seq<u8>, pos: nat, out: Seq<u8>)
    requires
        pos < s.len(),
        s[pos as int] & 3 == 2,
    ensures
        pos + 3 > s.len() ==> tag_step(s, pos, out) == Err::<(nat, Seq<u8>), Error>(
            Error::Truncated,
        ),
        pos + 3 <= s.len() ==> ({
            let len = ((s[pos as int] >> 2) + 1) as nat;
            let offset = s[pos + 1int] as nat + 256 * s[pos + 2int] as nat;
            match tag_step(s, pos, out) {
                Ok((next, out2)) => offset != 0 && offset <= out.len() && next == pos + 3
                    && copied_from_back(out, out2, offset, len),
                Err(e) => e == Error::Corrupt && (offset == 0 || offset > out.len()),
            }
        }),
{
    let tag = s[pos as int];
    crate::bits::lemma_byte_bits(tag);
    if pos + 3 <= s.len() {
        let b = s.subrange(pos + 1int, pos + 3int);
        assert(b.drop_first().drop_first() =~= Seq::<u8>::empty());
        assert(le_int(b.drop_first().drop_first()) == 0);
        assert(le_int(b.drop_first()) == s[pos + 2int] as nat);
        let offset = s[pos + 1int] as nat + 256 * s[pos + 2int] as nat;
        assert(le_int(b) == offset);
        lemma_copy_step_shape(out, offset, ((tag >> 2) + 1) as nat, pos + 3);
    }
}

/// The little-endian value of one to four bytes, digit by digit.
proof fn lemma_le_int_upto4(b: Seq<u8>)
    requires
        1 <= b.len() <= 4,
    ensures
        b.len() == 1 ==> le_int(b) == b[0] as nat,
        b.len() == 2 ==> le_int(b) == b[0] as nat + 0x100 * b[1] as nat,
        b.len() == 3 ==> le_int(b) == b[0] as nat + 0x100 * b[1] as nat + 0x10000 * b[2] as nat,
        b.len() == 4 ==> le_int(b) == b[0] as nat + 0x100 * b[1] as nat + 0x10000 * b[2] as nat
            + 0x1000000 * b[3] as nat,
{
    let b1 = b.drop_first();
    let b2 = b1.drop_first();
    let b3 = b2.drop_first();
    let b4 = b3.drop_first();
    if b.len() == 1 {
        assert(b1 =~= Seq::<u8>::empty());
        assert(le_int(b1) == 0);
    } else if b.len() == 2 {
        assert(b2 =~= Seq::<u8>::empty());
        assert(le_int(b2) == 0);
        assert(le_int(b1) == b[1] as nat);
    } else if b.len() == 3 {
        assert(b3 =~= Seq::<u8>::empty());
        assert(le_int(b3) == 0);
        assert(le_int(b2) == b[2] as nat);
        assert(le_int(b1) == b[1] as nat + 256 * b[2] as nat);
    } else {
        assert(b4 =~= Seq::<u8>::empty());
        assert(le_int(b4) == 0);
        assert(le_int(b3) == b[3] as nat);
        assert(le_int(b2) == b[2] as nat + 256 * b[3] as nat);
        assert(le_int(b1) == b[1] as nat + 256 * (b[2] as nat + 256 * b[3] as nat));
    }
}

/// A copy element with a four-byte offset (tag kind 3): it copies
/// `(tag >> 2) + 1` bytes from the little-endian offset in the four bytes
/// after the tag, and the element takes five bytes.
pub proof fn law_copy4_element(s: Seq<u8>, pos: nat, out: Seq<u8>)
    requires
        pos < s.len(),
        s[pos as int] & 3 == 3,
    ensures
        pos + 5 > s.len() ==> tag_step(s, pos, out) == Err::<(nat, Seq<u8>), Error>(
            Error::Truncated,
        ),
        pos + 5 <= s.len() ==> ({
            let len = ((s[pos as int] >> 2) + 1) as nat;
            let offset = s[pos + 1int] as nat + 0x100 * s[pos + 2int] as nat + 0x10000 * s[pos
                + 3int] as nat + 0x1000000 * s[pos + 4int] as nat;
            match tag_step(s, pos, out) {
                Ok((next, out2)) => offset != 0 && offset <= out.len() && next == pos + 5
                    && copied_from_back(out, out2, offset, len),
                Err(e) => e == Error::Corrupt && (offset == 0 || offset > out.len()),
            }
        }),
{
    let tag = s[pos as int];
    crate::bits::lemma_byte_bits(tag);
    if pos + 5 <= s.len() {
        let b = s.subrange(pos + 1int, pos + 5int);
        lemma_le_int_upto4(b);
        let offset = le_int(b);
        lemma_copy_step_shape(out, offset, ((tag >> 2) + 1) as nat, pos + 5);
    }
}

/// A literal element with its length after the tag (`tag >> 2` from 60 to
/// 63): the next `(tag >> 2) - 59` bytes hold the length less one,
/// little-endian, and that many bytes after them are appended to the output;
/// where the input ends before them, the block is truncated.
pub proof fn law_long_literal_element(s: Seq<u8>, pos: nat, out: Seq<u8>)
    requires
        pos < s.len(),
        s[pos as int] & 3 == 0,
        s[pos as int] >> 2 >= 60,
    ensures
        ({
            let extra = ((s[pos as int] >> 2) - 59) as nat;
            let p = pos + 1;
            let len = if extra == 1 {
                s[p as int] as nat + 1
            } else if extra == 2 {
                s[p as int] as nat + 0x100 * s[p + 1int] as nat + 1
            } else if extra == 3 {
                s[p as int] as nat + 0x100 * s[p + 1int] as nat + 0x10000 * s[p + 2int] as nat + 1
            } else {
                s[p as int] as nat + 0x100 * s[p + 1int] as nat + 0x10000 * s[p + 2int] as nat
                    + 0x1000000 * s[p + 3int] as nat + 1
            };
            let start = p + extra;
            if start > s.len() || start + len > s.len() {
                tag_step(s, pos, out) == Err::<(nat, Seq<u8>), Error>(Error::Truncated)
            } else {
                tag_step(s, pos, out) == Ok::<(nat, Seq<u8>), Error>(
                    ((start + len) as nat, out + s.subrange(start as int, (start + len) as int)),
                )
            }
        }),
{
    let tag = s[pos as int];
    crate::bits::lemma_byte_bits(tag);
    let extra = ((tag >> 2) - 59) as nat;
    let p = pos + 1;
    if p + extra <= s.len() {
        lemma_le_int_upto4(s.subrange(p as int, (p + extra) as int));
    }
}

} // verus!
