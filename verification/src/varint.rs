use crate::error::Error;
use vstd::prelude::*;

verus! {

/// `128^k`.
pub open spec fn pow128(k: nat) -> nat
    decreases k,
{
    if k == 0 {
        1
    } else {
        128 * pow128((k - 1) as nat)
    }
}

/// The canonical unsigned LEB128 encoding of `v`: seven bits per byte,
/// least significant group first, the high bit set on every byte but the
/// last.
pub open spec fn varint_bytes(v: nat) -> Seq<u8>
    decreases v,
{
    if v < 128 {
        seq![v as u8]
    } else {
        seq![(v % 128 + 128) as u8] + varint_bytes(v / 128)
    }
}

/// The value carried by the first `n` bytes of `s`, read as LEB128 groups.
pub open spec fn leb_value(s: Seq<u8>, n: nat) -> nat
    decreases n,
{
    if n == 0 || s.len() == 0 {
        0
    } else {
        (s[0] % 128) as nat + 128 * leb_value(s.drop_first(), (n - 1) as nat)
    }
}

/// Where the varint starting at `s[0]` ends, scanning from byte `i`: the
/// index of its last byte, `Truncated` if the input runs out first, and
/// `Corrupt` if the encoding would carry bits past the sixty-fourth (a tenth
/// byte with more than its lowest bit set, or an eleventh byte at all).
pub open spec fn varint_end(s: Seq<u8>, i: nat) -> Result<nat, Error>
    decreases s.len() - i,
{
    if i >= s.len() {
        Err(Error::Truncated)
    } else if i == 10 || (i == 9 && s[i as int] & 0x7e != 0) {
        Err(Error::Corrupt)
    } else if s[i as int] < 128 {
        Ok(i)
    } else {
        varint_end(s, i + 1)
    }
}

/// What reading one varint from the front of `s` gives: its value and the
/// number of bytes it took, or the error.
pub open spec fn varint_read(s: Seq<u8>) -> Result<(u64, usize), Error> {
    match varint_end(s, 0) {
        Ok(t) => Ok((leb_value(s, t + 1) as u64, (t + 1) as usize)),
        Err(e) => Err(e),
    }
}

/// Appends `value` to `out` as an unsigned LEB128 varint.
pub fn write_varint(out: &mut Vec<u8>, value: u64)
    ensures
        final(out)@ == old(out)@ + varint_bytes(value as nat),
{
    let mut rest = value;
    loop
        invariant
            out@ + varint_bytes(rest as nat) == old(out)@ + varint_bytes(value as nat),
        decreases rest,
    {
        let ghost prev = rest;
        let ghost before = out@;
        let byte = (rest & 0x7f) as u8;
        assert(byte == prev % 128 && (prev >> 7) == prev / 128) by {
            crate::bits::lemma_u64_bits(prev);
        }
        rest = rest >> 7;
        if rest == 0 {
            out.push(byte);
            assert(varint_bytes(prev as nat) == seq![byte]);
            assert(out@ == before + varint_bytes(prev as nat));
            assert(out@ == old(out)@ + varint_bytes(value as nat));
            return;
        }
        assert((byte | 0x80) == byte + 128) by {
            crate::bits::lemma_byte_bits(byte);
        }
        out.push(byte | 0x80);
        assert(varint_bytes(prev as nat) == seq![(byte | 0x80)] + varint_bytes(rest as nat));
        assert(out@ + varint_bytes(rest as nat) == before + varint_bytes(prev as nat));
    }
}

/// Adding one more group to a prefix adds its digit at the next power.
pub proof fn lemma_leb_value_step(s: Seq<u8>, i: nat)
    requires
        i < s.len(),
    ensures
        leb_value(s, i + 1) == leb_value(s, i) + (s[i as int] % 128) as nat * pow128(i),
    decreases i,
{
    if i == 0 {
        assert(leb_value(s.drop_first(), 0) == 0);
        assert(pow128(0) == 1);
    } else {
        lemma_leb_value_step(s.drop_first(), (i - 1) as nat);
        assert(s.drop_first()[(i - 1) as int] == s[i as int]);
        assert(leb_value(s, i + 1) == (s[0] % 128) as nat + 128 * leb_value(s.drop_first(), i));
        assert(leb_value(s, i) == (s[0] % 128) as nat + 128 * leb_value(
            s.drop_first(),
            (i - 1) as nat,
        ));
        assert(128 * ((s[i as int] % 128) as nat * pow128((i - 1) as nat)) == (s[i as int]
            % 128) as nat * pow128(i)) by (nonlinear_arith)
            requires
                pow128(i) == 128 * pow128((i - 1) as nat),
        ;
    }
}

/// The first `n` groups carry less than `128^n`.
pub proof fn lemma_leb_value_bound(s: Seq<u8>, n: nat)
    ensures
        leb_value(s, n) < pow128(n),
    decreases n,
{
    if n > 0 {
        if s.len() > 0 {
            lemma_leb_value_bound(s.drop_first(), (n - 1) as nat);
        }
        lemma_pow128_positive((n - 1) as nat);
    }
}

proof fn lemma_pow128_positive(k: nat)
    ensures
        pow128(k) >= 1,
    decreases k,
{
    if k > 0 {
        lemma_pow128_positive((k - 1) as nat);
    }
}

pub proof fn lemma_pow128_values()
    ensures
        pow128(8) == 0x100000000000000,
        pow128(9) == 0x8000000000000000,
{
    reveal_with_fuel(pow128, 10);
}

/// Reads one unsigned LEB128 varint from the front of `input`, returning
/// the value and how many bytes it occupied. Trailing bytes are ignored.
pub fn read_varint(input: &[u8]) -> (r: Result<(u64, usize), Error>)
    ensures
        r == varint_read(input@),
{
    let mut value: u64 = 0;
    let mut scale: u64 = 1;
    let mut i: usize = 0;
    proof {
        lemma_pow128_values();
    }
    while i < input.len()
        invariant
            i <= input.len(),
            i <= 10,
            varint_end(input@, 0) == varint_end(input@, i as nat),
            value == leb_value(input@, i as nat),
            i <= 9 ==> scale == pow128(i as nat),
            pow128(8) == 0x100000000000000,
            pow128(9) == 0x8000000000000000,
        decreases input.len() - i,
    {
        let byte = input[i];
        if i == 10 || (i == 9 && byte & 0x7e != 0) {
            return Err(Error::Corrupt);
        }
        let digit = (byte & 0x7f) as u64;
        assert(digit == byte % 128) by {
            crate::bits::lemma_byte_bits(byte);
        }
        proof {
            lemma_leb_value_step(input@, i as nat);
            lemma_leb_value_bound(input@, i as nat);
            if i == 9 {
                assert(byte & 0x7e == 0 ==> byte % 128 <= 1) by {
            crate::bits::lemma_byte_bits(byte);
        }
            } else {
                assert(pow128(i as nat) <= pow128(8)) by {
                    lemma_pow128_monotone(i as nat, 8);
                }
            }
            assert(digit * scale + value < 0x10000000000000000) by (nonlinear_arith)
                requires
                    digit <= 127,
                    i < 9 ==> scale <= 0x100000000000000,
                    i == 9 ==> digit <= 1 && scale == 0x8000000000000000,
                    value < scale,
                    i <= 9,
            ;
        }
        value = value + digit * scale;
        if byte & 0x80 == 0 {
            assert(byte & 0x80 == 0 ==> byte < 128) by {
            crate::bits::lemma_byte_bits(byte);
        }
            return Ok((value, i + 1));
        }
        assert(byte & 0x80 != 0 ==> byte >= 128) by {
            crate::bits::lemma_byte_bits(byte);
        }
        if i < 9 {
            proof {
                lemma_pow128_monotone(i as nat, 8);
            }
            scale = scale * 128;
        }
        i = i + 1;
    }
    Err(Error::Truncated)
}

proof fn lemma_pow128_monotone(a: nat, b: nat)
    requires
        a <= b,
    ensures
        pow128(a) <= pow128(b),
    decreases b,
{
    if a < b {
        lemma_pow128_monotone(a, (b - 1) as nat);
        lemma_pow128_positive((b - 1) as nat);
    }
}

/// The shape of a canonical encoding: every byte but the last carries the
/// continuation bit, and an encoding of a value below `2 * 128^k` has at
/// most `k + 1` bytes, the `(k + 1)`-th of them holding at most one bit.
pub proof fn lemma_varint_bytes_shape(v: nat, k: nat)
    requires
        v < 2 * pow128(k),
    ensures
        1 <= varint_bytes(v).len() <= k + 1,
        forall|j: int| 0 <= j < varint_bytes(v).len() - 1 ==> varint_bytes(v)[j] >= 128,
        varint_bytes(v)[varint_bytes(v).len() - 1] < 128,
        varint_bytes(v).len() == k + 1 ==> varint_bytes(v)[k as int] <= 1,
        leb_value(varint_bytes(v), varint_bytes(v).len()) == v,
    decreases v,
{
    let e = varint_bytes(v);
    if v < 128 {
        assert(e == seq![v as u8]);
        assert(leb_value(e.drop_first(), 0) == 0);
        if k == 0 {
            assert(pow128(0) == 1);
        }
    } else {
        if k == 0 {
            assert(pow128(0) == 1);
            assert(false);
        }
        assert(v / 128 < 2 * pow128((k - 1) as nat)) by (nonlinear_arith)
            requires
                v < 2 * pow128(k),
                pow128(k) == 128 * pow128((k - 1) as nat),
        ;
        lemma_varint_bytes_shape(v / 128, (k - 1) as nat);
        let tail = varint_bytes(v / 128);
        assert(e == seq![(v % 128 + 128) as u8] + tail);
        assert(e.drop_first() == tail);
        assert forall|j: int| 0 <= j < e.len() - 1 implies e[j] >= 128 by {
            if j > 0 {
                assert(e[j] == tail[j - 1]);
            }
        }
        assert(e[e.len() - 1] == tail[tail.len() - 1]);
        if e.len() == k + 1 {
            assert(e[k as int] == tail[(k - 1) as int]);
        }
        assert(((v % 128 + 128) as u8) % 128 == v % 128);
        assert(v == v % 128 + 128 * (v / 128));
    }
}

/// Trailing bytes do not change the value of a prefix.
pub proof fn lemma_leb_value_prefix(e: Seq<u8>, rest: Seq<u8>, n: nat)
    requires
        n <= e.len(),
    ensures
        leb_value(e + rest, n) == leb_value(e, n),
    decreases n,
{
    if n > 0 {
        assert((e + rest).drop_first() == e.drop_first() + rest);
        lemma_leb_value_prefix(e.drop_first(), rest, (n - 1) as nat);
    }
}

/// Scanning a canonical encoding followed by anything stops at its last byte.
proof fn lemma_varint_end_of_encoding(v: u64, rest: Seq<u8>, i: nat)
    requires
        i < varint_bytes(v as nat).len(),
        1 <= varint_bytes(v as nat).len() <= 10,
        forall|j: int|
            0 <= j < varint_bytes(v as nat).len() - 1 ==> varint_bytes(v as nat)[j] >= 128,
        varint_bytes(v as nat)[varint_bytes(v as nat).len() - 1] < 128,
        varint_bytes(v as nat).len() == 10 ==> varint_bytes(v as nat)[9] <= 1,
    ensures
        varint_end(varint_bytes(v as nat) + rest, i) == Ok::<nat, Error>(
            (varint_bytes(v as nat).len() - 1) as nat,
        ),
    decreases varint_bytes(v as nat).len() - i,
{
    let e = varint_bytes(v as nat);
    let s = e + rest;
    assert(s[i as int] == e[i as int]);
    let b = s[i as int];
    if i == 9 {
        assert(b <= 1 ==> b & 0x7e == 0) by {
            crate::bits::lemma_byte_bits(b);
        }
    }
    if i < e.len() - 1 {
        lemma_varint_end_of_encoding(v, rest, i + 1);
    }
}

/// Reading back what `write_varint` wrote gives the value and the number
/// of bytes written, whatever follows them; no encoding is longer than ten
/// bytes.
pub proof fn law_varint_roundtrip(v: u64, rest: Seq<u8>)
    ensures
        varint_read(varint_bytes(v as nat) + rest) == Ok::<(u64, usize), Error>(
            (v, varint_bytes(v as nat).len() as usize),
        ),
        1 <= varint_bytes(v as nat).len() <= 10,
{
    lemma_pow128_values();
    lemma_varint_bytes_shape(v as nat, 9);
    lemma_varint_end_of_encoding(v, rest, 0);
    lemma_leb_value_prefix(varint_bytes(v as nat), rest, varint_bytes(v as nat).len());
}

/// A successful read takes between one and ten bytes, all of them present.
pub proof fn lemma_varint_read_len(s: Seq<u8>)
    ensures
        varint_read(s) matches Ok((_, n)) ==> 1 <= n <= 10 && n <= s.len(),
{
    lemma_varint_end_bounds(s, 0);
}

proof fn lemma_varint_end_bounds(s: Seq<u8>, i: nat)
    requires
        i <= 10,
    ensures
        varint_end(s, i) matches Ok(t) ==> i <= t && t < s.len() && t <= 9,
    decreases s.len() - i,
{
    if i < s.len() && !(i == 10 || (i == 9 && s[i as int] & 0x7e != 0)) && s[i as int] >= 128 {
        lemma_varint_end_bounds(s, i + 1);
    }
}

/// An encoding of a value below `128^k` takes at most `k` bytes.
pub proof fn lemma_varint_bytes_len_bound(v: nat, k: nat)
    requires
        k >= 1,
        v < pow128(k),
    ensures
        varint_bytes(v).len() <= k,
    decreases v,
{
    if v >= 128 {
        if k == 1 {
            assert(pow128(1) == 128) by {
                reveal_with_fuel(pow128, 2);
            }
        } else {
            assert(v / 128 < pow128((k - 1) as nat)) by (nonlinear_arith)
                requires
                    v < pow128(k),
                    pow128(k) == 128 * pow128((k - 1) as nat),
            ;
            lemma_varint_bytes_len_bound(v / 128, (k - 1) as nat);
        }
    }
}

} // verus!
