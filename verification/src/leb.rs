//! Variable-length and fixed-width integer encodings shared by the index
//! serializer and the WebAssembly emitter: unsigned LEB128, signed LEB128
//! (32-bit), and little-endian 32-bit words.

use vstd::prelude::*;

verus! {

/// The unsigned LEB128 encoding of `v`: seven value bits per byte, low bits
/// first, the high bit of each byte marking a continuation.
pub open spec fn leb_u64(v: nat) -> Seq<u8>
    decreases v,
{
    if v < 128 {
        seq![v as u8]
    } else {
        seq![(v % 128 + 128) as u8] + leb_u64(v / 128)
    }
}

/// Parse an unsigned LEB128 value at `pos`, returning the value and the
/// number of bytes consumed; `None` on truncation or on a value above
/// `u64::MAX`.
pub open spec fn leb_parse(bytes: Seq<u8>, pos: int) -> Option<(nat, int)>
    decreases bytes.len() - pos,
{
    if pos < 0 || pos >= bytes.len() {
        None
    } else if bytes[pos] < 128 {
        Some((bytes[pos] as nat, 1))
    } else {
        match leb_parse(bytes, pos + 1) {
            None => None,
            Some((v, l)) => {
                let val = (bytes[pos] - 128) + 128 * v;
                if val > u64::MAX {
                    None
                } else {
                    Some((val as nat, l + 1))
                }
            },
        }
    }
}

/// Append the LEB128 encoding of `v` to `out`.
pub fn leb_write(v: u64, out: &mut Vec<u8>)
    ensures
        final(out)@ == old(out)@ + leb_u64(v as nat),
    decreases v,
{
    if v < 128 {
        out.push(v as u8);
        assert(out@ =~= old(out)@ + leb_u64(v as nat));
    } else {
        out.push((v % 128 + 128) as u8);
        leb_write(v / 128, out);
        assert(out@ =~= old(out)@ + leb_u64(v as nat));
    }
}

/// Read a LEB128 value at `pos`; returns the value and the position of the
/// first byte after it.
pub fn leb_read(bytes: &Vec<u8>, pos: usize) -> (r: Option<(u64, usize)>)
    ensures
        match r {
            Some((v, end)) => leb_parse(bytes@, pos as int) == Some(
                (v as nat, end - pos),
            ) && pos < end <= bytes@.len(),
            None => leb_parse(bytes@, pos as int) is None,
        },
    decreases bytes@.len() - pos,
{
    if pos >= bytes.len() {
        return None;
    }
    let b = bytes[pos];
    if b < 128 {
        Some((b as u64, pos + 1))
    } else {
        match leb_read(bytes, pos + 1) {
            None => None,
            Some((v, end)) => {
                if v > (u64::MAX - ((b - 128) as u64)) / 128 {
                    assert(((b - 128) + 128 * (v as nat)) > u64::MAX) by (nonlinear_arith)
                        requires
                            v > (u64::MAX - ((b - 128) as u64)) / 128,
                            b >= 128,
                    ;
                    None
                } else {
                    assert(((b - 128) + 128 * (v as nat)) <= u64::MAX) by (nonlinear_arith)
                        requires
                            v <= (u64::MAX - ((b - 128) as u64)) / 128,
                            b >= 128,
                    ;
                    Some(((b - 128) as u64 + 128 * v, end))
                }
            },
        }
    }
}

} // verus!

verus! {

/// The signed LEB128 encoding of `v` (any width): low seven bits per byte,
/// the final byte carrying the sign in bit 6.
pub open spec fn sleb(v: int) -> Seq<u8>
    decreases (if v >= 0 { v } else { -(v + 1) }),
{
    if -64 <= v < 64 {
        seq![(v % 128) as u8]
    } else {
        seq![(v % 128 + 128) as u8] + sleb(v / 128)
    }
}

/// Parse a signed LEB128 value at `pos` spanning at most `fuel` bytes,
/// returning the value and the number of bytes consumed.
pub open spec fn sleb_parse(bytes: Seq<u8>, pos: int, fuel: nat) -> Option<(int, int)>
    decreases fuel,
{
    if fuel == 0 || pos < 0 || pos >= bytes.len() {
        None
    } else if bytes[pos] < 128 {
        Some(((if bytes[pos] >= 64 { bytes[pos] - 128 } else { bytes[pos] as int }), 1))
    } else {
        match sleb_parse(bytes, pos + 1, (fuel - 1) as nat) {
            None => None,
            Some((v, l)) => Some(((bytes[pos] - 128) + 128 * v, l + 1)),
        }
    }
}

/// Append the signed LEB128 encoding of `v` to `out`.
pub fn sleb_write(v: i64, out: &mut Vec<u8>)
    ensures
        final(out)@ == old(out)@ + sleb(v as int),
    decreases (if v >= 0 { v as int } else { -(v + 1) }),
{
    if -64 <= v && v < 64 {
        let m: i64 = v % 128;
        let low: i64 = if m < 0 {
            m + 128
        } else {
            m
        };
        assert(low == (v as int) % 128);
        out.push(low as u8);
        assert(out@ =~= old(out)@ + sleb(v as int));
    } else {
        let m: i64 = v % 128;
        let low: i64 = if m < 0 {
            m + 128
        } else {
            m
        };
        assert(low == (v as int) % 128);
        out.push((low + 128) as u8);
        let q: i64 = if m < 0 {
            v / 128 - 1
        } else {
            v / 128
        };
        assert(q == (v as int) / 128);
        sleb_write(q, out);
        assert(out@ =~= old(out)@ + sleb(v as int));
    }
}

/// Read a signed LEB128 value of at most `fuel` bytes at `pos`.
pub fn sleb_read(bytes: &Vec<u8>, pos: usize, fuel: u32) -> (r: Option<(i64, usize)>)
    requires
        fuel <= 5,
    ensures
        match r {
            Some((v, end)) => sleb_parse(bytes@, pos as int, fuel as nat) == Some(
                (v as int, end - pos),
            ) && pos < end <= bytes@.len(),
            None => sleb_parse(bytes@, pos as int, fuel as nat) is None,
        },
    decreases fuel,
{
    if fuel == 0 || pos >= bytes.len() {
        return None;
    }
    let b = bytes[pos];
    if b < 128 {
        if b >= 64 {
            Some((b as i64 - 128, pos + 1))
        } else {
            Some((b as i64, pos + 1))
        }
    } else {
        match sleb_read(bytes, pos + 1, fuel - 1) {
            None => None,
            Some((v, end)) => {
                proof {
                    lemma_sleb_parse_range(bytes@, pos as int + 1, (fuel - 1) as nat);
                    assert(-pow128(4) <= v < pow128(4)) by {
                        lemma_pow128_mono((fuel - 1) as nat, 4);
                    }
                    assert(pow128(4) == 0x10000000) by {
                        reveal_with_fuel(pow128, 5);
                    }
                    assert(-0x8000000000000000 <= (b - 128) + 128 * (v as int)
                        < 0x8000000000000000) by (nonlinear_arith)
                        requires
                            -0x10000000 <= v < 0x10000000,
                            128 <= b < 256,
                    ;
                }
                Some(((b - 128) as i64 + 128 * v, end))
            },
        }
    }
}

/// Skip over a signed LEB128 value of at most `fuel` bytes at `pos`,
/// returning the position of the first byte after it.
pub fn sleb_skip(bytes: &Vec<u8>, pos: usize, fuel: u32) -> (r: Option<usize>)
    ensures
        match r {
            Some(end) => sleb_parse(bytes@, pos as int, fuel as nat) matches Some((v, l))
                && end == pos + l && pos < end <= bytes@.len(),
            None => sleb_parse(bytes@, pos as int, fuel as nat) is None,
        },
    decreases fuel,
{
    if fuel == 0 || pos >= bytes.len() {
        return None;
    }
    let b = bytes[pos];
    if b < 128 {
        Some(pos + 1)
    } else {
        match sleb_skip(bytes, pos + 1, fuel - 1) {
            None => None,
            Some(end) => Some(end),
        }
    }
}

/// `128` raised to the power `n`.
pub open spec fn pow128(n: nat) -> int
    decreases n,
{
    if n == 0 {
        1
    } else {
        128 * pow128((n - 1) as nat)
    }
}

pub proof fn lemma_pow128_mono(m: nat, n: nat)
    requires
        m <= n,
    ensures
        0 < pow128(m) <= pow128(n),
    decreases n,
{
    if m == n {
        if n > 0 {
            lemma_pow128_mono((m - 1) as nat, (n - 1) as nat);
            assert(0 < 128 * pow128((n - 1) as nat)) by (nonlinear_arith)
                requires
                    pow128((n - 1) as nat) > 0,
            ;
        }
    } else {
        lemma_pow128_mono(m, (n - 1) as nat);
        assert(pow128((n - 1) as nat) <= 128 * pow128((n - 1) as nat)) by (nonlinear_arith)
            requires
                pow128((n - 1) as nat) > 0,
        ;
    }
}

/// A parsed signed LEB128 value of at most `fuel` bytes is bounded by
/// `128^fuel` in magnitude.
pub proof fn lemma_sleb_parse_range(bytes: Seq<u8>, pos: int, fuel: nat)
    ensures
        match sleb_parse(bytes, pos, fuel) {
            Some((v, l)) => -pow128(fuel) <= v < pow128(fuel),
            None => true,
        },
    decreases fuel,
{
    if fuel > 0 && 0 <= pos < bytes.len() && bytes[pos] >= 128 {
        lemma_sleb_parse_range(bytes, pos + 1, (fuel - 1) as nat);
        lemma_pow128_mono((fuel - 1) as nat, (fuel - 1) as nat);
        if sleb_parse(bytes, pos + 1, (fuel - 1) as nat) is Some {
            let (v, l) = sleb_parse(bytes, pos + 1, (fuel - 1) as nat).unwrap();
            assert(-pow128(fuel) <= (bytes[pos] - 128) + 128 * v < pow128(fuel))
                by (nonlinear_arith)
                requires
                    -pow128((fuel - 1) as nat) <= v < pow128((fuel - 1) as nat),
                    0 <= bytes[pos] - 128 < 128,
                    pow128(fuel) == 128 * pow128((fuel - 1) as nat),
                    pow128((fuel - 1) as nat) > 0,
            ;
        }
    } else if fuel > 0 && 0 <= pos < bytes.len() {
        lemma_pow128_mono(0, fuel);
    }
}

/// The four bytes of `v` in little-endian order.
pub open spec fn le32(v: u32) -> Seq<u8> {
    seq![
        (v % 256) as u8,
        (v / 256 % 256) as u8,
        (v / 0x10000 % 256) as u8,
        (v / 0x1000000 % 256) as u8,
    ]
}

/// Split `v` into its four little-endian bytes.
pub fn le32_bytes(v: u32) -> (r: [u8; 4])
    ensures
        r@ == le32(v),
{
    let r = [
        (v % 256) as u8,
        (v / 256 % 256) as u8,
        (v / 0x10000 % 256) as u8,
        (v / 0x1000000 % 256) as u8,
    ];
    assert(r@ =~= le32(v));
    r
}

} // verus!

verus! {

/// The eight bytes of `v` in little-endian order.
#[verifier::opaque]
pub open spec fn le64(v: nat) -> Seq<u8> {
    seq![
        (v % 256) as u8,
        (v / 0x100 % 256) as u8,
        (v / 0x10000 % 256) as u8,
        (v / 0x1000000 % 256) as u8,
        (v / 0x100000000 % 256) as u8,
        (v / 0x10000000000 % 256) as u8,
        (v / 0x1000000000000 % 256) as u8,
        (v / 0x100000000000000 % 256) as u8,
    ]
}

/// The value of the eight little-endian bytes at `p`.
pub open spec fn le64_at(b: Seq<u8>, p: int) -> nat {
    (b[p] + b[p + 1] * 0x100 + b[p + 2] * 0x10000 + b[p + 3] * 0x1000000 + b[p + 4] * 0x100000000
        + b[p + 5] * 0x10000000000 + b[p + 6] * 0x1000000000000 + b[p + 7]
        * 0x100000000000000) as nat
}

/// Every encoded 64-bit value spans exactly eight bytes.
pub broadcast proof fn lemma_le64_len(v: nat)
    ensures
        (#[trigger] le64(v)).len() == 8,
{
    reveal(le64);
}

/// Eight little-endian bytes read back as the value they encode.
pub proof fn lemma_le64_roundtrip(b: Seq<u8>, p: int, v: nat)
    requires
        v <= u64::MAX,
        0 <= p,
        p + 8 <= b.len(),
        b.subrange(p, p + 8) == le64(v),
    ensures
        le64_at(b, p) == v,
{
    reveal(le64);
    assert(b[p] == le64(v)[0] && b[p + 1] == le64(v)[1] && b[p + 2] == le64(v)[2] && b[p + 3]
        == le64(v)[3] && b[p + 4] == le64(v)[4] && b[p + 5] == le64(v)[5] && b[p + 6] == le64(
        v,
    )[6] && b[p + 7] == le64(v)[7]) by {
        assert(forall|i: int|
            0 <= i < 8 ==> b.subrange(p, p + 8)[i] == #[trigger] b[p + i]);
    }
    lemma_byte_split(v as int);
}

/// A value below `2^64` equals the weighted sum of its eight base-256
/// digits.
proof fn lemma_byte_split(v: int)
    requires
        0 <= v <= u64::MAX,
    ensures
        v % 256 + (v / 0x100 % 256) * 0x100 + (v / 0x10000 % 256) * 0x10000 + (v / 0x1000000 % 256)
            * 0x1000000 + (v / 0x100000000 % 256) * 0x100000000 + (v / 0x10000000000 % 256)
            * 0x10000000000 + (v / 0x1000000000000 % 256) * 0x1000000000000 + (v
            / 0x100000000000000 % 256) * 0x100000000000000 == v,
{
    let v1 = v / 0x100;
    let v2 = v1 / 0x100;
    let v3 = v2 / 0x100;
    let v4 = v3 / 0x100;
    let v5 = v4 / 0x100;
    let v6 = v5 / 0x100;
    let v7 = v6 / 0x100;
    vstd::arithmetic::div_mod::lemma_fundamental_div_mod(v, 0x100);
    vstd::arithmetic::div_mod::lemma_fundamental_div_mod(v1, 0x100);
    vstd::arithmetic::div_mod::lemma_fundamental_div_mod(v2, 0x100);
    vstd::arithmetic::div_mod::lemma_fundamental_div_mod(v3, 0x100);
    vstd::arithmetic::div_mod::lemma_fundamental_div_mod(v4, 0x100);
    vstd::arithmetic::div_mod::lemma_fundamental_div_mod(v5, 0x100);
    vstd::arithmetic::div_mod::lemma_fundamental_div_mod(v6, 0x100);
    vstd::arithmetic::div_mod::lemma_div_denominator(v, 0x100, 0x100);
    vstd::arithmetic::div_mod::lemma_div_denominator(v, 0x10000, 0x100);
    vstd::arithmetic::div_mod::lemma_div_denominator(v, 0x1000000, 0x100);
    vstd::arithmetic::div_mod::lemma_div_denominator(v, 0x100000000, 0x100);
    vstd::arithmetic::div_mod::lemma_div_denominator(v, 0x10000000000, 0x100);
    vstd::arithmetic::div_mod::lemma_div_denominator(v, 0x1000000000000, 0x100);
    assert(v2 == v / 0x10000);
    assert(v3 == v / 0x1000000);
    assert(v4 == v / 0x100000000);
    assert(v5 == v / 0x10000000000);
    assert(v6 == v / 0x1000000000000);
    assert(v7 == v / 0x100000000000000);
    assert(0 <= v7 < 256) by (nonlinear_arith)
        requires
            0 <= v <= u64::MAX,
            v7 == v / 0x100000000000000,
    ;
    vstd::arithmetic::div_mod::lemma_small_mod(v7 as nat, 256);
    assert(v == v % 0x100 + 0x100 * v1);
    assert(v1 == v1 % 0x100 + 0x100 * v2);
    assert(v2 == v2 % 0x100 + 0x100 * v3);
    assert(v3 == v3 % 0x100 + 0x100 * v4);
    assert(v4 == v4 % 0x100 + 0x100 * v5);
    assert(v5 == v5 % 0x100 + 0x100 * v6);
    assert(v6 == v6 % 0x100 + 0x100 * v7);
}

/// Append the eight little-endian bytes of `v` to `out`.
pub fn le64_write(v: u64, out: &mut Vec<u8>)
    ensures
        final(out)@ == old(out)@ + le64(v as nat),
{
    out.push((v % 256) as u8);
    out.push((v / 0x100 % 256) as u8);
    out.push((v / 0x10000 % 256) as u8);
    out.push((v / 0x1000000 % 256) as u8);
    out.push((v / 0x100000000 % 256) as u8);
    out.push((v / 0x10000000000 % 256) as u8);
    out.push((v / 0x1000000000000 % 256) as u8);
    out.push((v / 0x100000000000000 % 256) as u8);
    proof {
        reveal(le64);
    }
    assert(out@ =~= old(out)@ + le64(v as nat));
}

/// Read the eight little-endian bytes at `p` as a value.
pub fn le64_read(bytes: &Vec<u8>, p: usize) -> (r: Option<u64>)
    ensures
        match r {
            Some(v) => p + 8 <= bytes@.len() && v == le64_at(bytes@, p as int),
            None => p + 8 > bytes@.len(),
        },
{
    if p >= bytes.len() || bytes.len() - p < 8 {
        return None;
    }
    let v: u64 = bytes[p] as u64 + bytes[p + 1] as u64 * 0x100 + bytes[p + 2] as u64 * 0x10000
        + bytes[p + 3] as u64 * 0x1000000 + bytes[p + 4] as u64 * 0x100000000 + bytes[p + 5] as u64
        * 0x10000000000 + bytes[p + 6] as u64 * 0x1000000000000 + bytes[p + 7] as u64
        * 0x100000000000000;
    Some(v)
}

} // verus!

verus! {

/// Read a LEB128 value whose bytes are exactly its canonical encoding;
/// non-canonical paddings are rejected.
pub fn leb_read_exact(bytes: &Vec<u8>, pos: usize) -> (r: Option<(u64, usize)>)
    ensures
        r matches Some(x) ==> pos < x.1 <= bytes@.len() && bytes@.subrange(
            pos as int,
            x.1 as int,
        ) == leb_u64(x.0 as nat),
{
    let (v, end) = match leb_read(bytes, pos) {
        Some(x) => x,
        None => {
            return None;
        },
    };
    let mut scratch: Vec<u8> = Vec::new();
    leb_write(v, &mut scratch);
    if scratch.len() != end - pos {
        return None;
    }
    let mut i: usize = 0;
    while i < scratch.len()
        invariant
            0 <= i <= scratch@.len(),
            scratch@ == leb_u64(v as nat),
            pos + scratch@.len() == end <= bytes@.len(),
            forall|j: int| 0 <= j < i ==> bytes@[pos + j] == scratch@[j],
        decreases scratch@.len() - i,
    {
        if bytes[pos + i] != scratch[i] {
            return None;
        }
        i = i + 1;
    }
    proof {
        assert(bytes@.subrange(pos as int, end as int) =~= scratch@);
    }
    Some((v, end))
}

} // verus!
