//! Packing of narrow codes into bytes.
//!
//! A code takes 1, 2, 4 or 8 bits. One byte holds `8 / bits` codes, the
//! first in its least significant bits; a record whose last byte is not
//! filled is padded with zero codes.

use vstd::prelude::*;

verus! {

/// The code widths that can be packed.
pub open spec fn valid_bits(bits: u32) -> bool {
    bits == 1 || bits == 2 || bits == 4 || bits == 8
}

/// The number of values a code of `bits` bits can take.
pub open spec fn levels(bits: u32) -> int {
    if bits == 1 {
        2
    } else if bits == 2 {
        4
    } else if bits == 4 {
        16
    } else {
        256
    }
}

/// The number of codes that one byte holds.
pub open spec fn codes_per_byte(bits: u32) -> int {
    if bits == 1 {
        8
    } else if bits == 2 {
        4
    } else if bits == 4 {
        2
    } else {
        1
    }
}

/// The number of bytes that hold `width` codes of `bits` bits each.
pub open spec fn record_bytes(width: int, bits: u32) -> int {
    (width * bits + 7) / 8
}

/// Every code fits in `bits` bits.
pub open spec fn codes_fit(bits: u32, codes: Seq<u8>) -> bool {
    forall|k: int| 0 <= k < codes.len() ==> (#[trigger] codes[k]) < levels(bits)
}

/// The code at position `k`, or the zero padding behind the last code.
pub open spec fn code_or_zero(codes: Seq<u8>, k: int) -> int {
    if 0 <= k < codes.len() {
        codes[k] as int
    } else {
        0
    }
}

/// The number whose digits in base `2^bits`, least significant first, are
/// the `count` codes from position `from` on.
pub open spec fn digits(bits: u32, codes: Seq<u8>, from: int, count: nat) -> int
    decreases count,
{
    if count == 0 {
        0
    } else {
        code_or_zero(codes, from) + levels(bits) * digits(bits, codes, from + 1, (count - 1) as nat)
    }
}

/// Byte `j` of the packed record of `codes`.
pub open spec fn packed_byte(bits: u32, codes: Seq<u8>, j: int) -> int {
    digits(bits, codes, j * codes_per_byte(bits), codes_per_byte(bits) as nat)
}

/// The packed record of `codes`.
pub open spec fn packed_record(bits: u32, codes: Seq<u8>) -> Seq<u8> {
    Seq::new(
        record_bytes(codes.len() as int, bits) as nat,
        |j: int| packed_byte(bits, codes, j) as u8,
    )
}

/// Two to the power `e`, for the shifts that occur inside one byte.
pub open spec fn pow2_small(e: int) -> int {
    if e <= 0 {
        1
    } else if e == 1 {
        2
    } else if e == 2 {
        4
    } else if e == 3 {
        8
    } else if e == 4 {
        16
    } else if e == 5 {
        32
    } else if e == 6 {
        64
    } else {
        128
    }
}

/// The code at position `k` of a packed record: digit `k mod (8 / bits)`,
/// in base `2^bits`, of byte `k / (8 / bits)`.
pub open spec fn unpacked_code(bits: u32, record: Seq<u8>, k: int) -> int {
    (record[k / codes_per_byte(bits)] as int / pow2_small(bits * (k % codes_per_byte(bits))))
        % levels(bits)
}

/// The first `width` codes of a packed record.
pub open spec fn unpacked_codes(bits: u32, record: Seq<u8>, width: int) -> Seq<u8> {
    Seq::new(width as nat, |k: int| unpacked_code(bits, record, k) as u8)
}

/// A packed byte is a byte whenever the codes fit.
pub proof fn lemma_packed_byte_range(bits: u32, codes: Seq<u8>, j: int)
    requires
        valid_bits(bits),
        codes_fit(bits, codes),
    ensures
        0 <= packed_byte(bits, codes, j) < 256,
{
    reveal_with_fuel(digits, 9);
    let per = codes_per_byte(bits);
    assert forall|k: int| 0 <= #[trigger] code_or_zero(codes, k) < levels(bits) by {
        if 0 <= k < codes.len() {
            assert(codes[k] < levels(bits));
        }
    }
}

/// The digits of a byte written from eight one-bit codes.
proof fn lemma_digits_base_2(c: Seq<int>, m: int)
    requires
        c.len() == 8,
        forall|i: int| 0 <= i < 8 ==> 0 <= #[trigger] c[i] < 2,
        0 <= m < 8,
    ensures
        ((c[0] + 2 * c[1] + 4 * c[2] + 8 * c[3] + 16 * c[4] + 32 * c[5] + 64 * c[6] + 128 * c[7])
            / pow2_small(m)) % 2 == c[m],
{
    let (c0, c1, c2, c3, c4, c5, c6, c7) = (c[0], c[1], c[2], c[3], c[4], c[5], c[6], c[7]);
    let b = c0 + 2 * c1 + 4 * c2 + 8 * c3 + 16 * c4 + 32 * c5 + 64 * c6 + 128 * c7;
    if m == 0 {
        assert(b == c0 + 2 * (c1 + 2 * c2 + 4 * c3 + 8 * c4 + 16 * c5 + 32 * c6 + 64 * c7));
    } else if m == 1 {
        assert(b == (c0 + 2 * c1) + 4 * (c2 + 2 * c3 + 4 * c4 + 8 * c5 + 16 * c6 + 32 * c7));
        assert(b / 2 == c1 + 2 * (c2 + 2 * c3 + 4 * c4 + 8 * c5 + 16 * c6 + 32 * c7));
    } else if m == 2 {
        assert(b / 4 == c2 + 2 * (c3 + 2 * c4 + 4 * c5 + 8 * c6 + 16 * c7));
    } else if m == 3 {
        assert(b / 8 == c3 + 2 * (c4 + 2 * c5 + 4 * c6 + 8 * c7));
    } else if m == 4 {
        assert(b / 16 == c4 + 2 * (c5 + 2 * c6 + 4 * c7));
    } else if m == 5 {
        assert(b / 32 == c5 + 2 * (c6 + 2 * c7));
    } else if m == 6 {
        assert(b / 64 == c6 + 2 * c7);
    } else {
        assert(b / 128 == c7);
    }
}

/// The digits of a byte written from four two-bit codes.
proof fn lemma_digits_base_4(c: Seq<int>, m: int)
    requires
        c.len() == 4,
        forall|i: int| 0 <= i < 4 ==> 0 <= #[trigger] c[i] < 4,
        0 <= m < 4,
    ensures
        ((c[0] + 4 * c[1] + 16 * c[2] + 64 * c[3]) / pow2_small(2 * m)) % 4 == c[m],
{
    let (c0, c1, c2, c3) = (c[0], c[1], c[2], c[3]);
    let b = c0 + 4 * c1 + 16 * c2 + 64 * c3;
    if m == 0 {
        assert(b == c0 + 4 * (c1 + 4 * c2 + 16 * c3));
    } else if m == 1 {
        assert(b / 4 == c1 + 4 * (c2 + 4 * c3));
    } else if m == 2 {
        assert(b / 16 == c2 + 4 * c3);
    } else {
        assert(b / 64 == c3);
    }
}

/// The digits of a byte written from two four-bit codes.
proof fn lemma_digits_base_16(c0: int, c1: int, m: int)
    requires
        0 <= c0 < 16,
        0 <= c1 < 16,
        0 <= m < 2,
    ensures
        ((c0 + 16 * c1) / pow2_small(4 * m)) % 16 == (if m == 0 {
            c0
        } else {
            c1
        }),
{
}

/// Unpacking a packed record gives back every code: digit `k` of the record
/// packed from `codes` is `codes[k]`, and the padding behind them is zero.
pub proof fn lemma_unpack_packed(bits: u32, codes: Seq<u8>, k: int)
    requires
        valid_bits(bits),
        codes_fit(bits, codes),
        0 <= k < record_bytes(codes.len() as int, bits) * codes_per_byte(bits),
    ensures
        unpacked_code(bits, packed_record(bits, codes), k) == code_or_zero(codes, k),
{
    let per = codes_per_byte(bits);
    let j = k / per;
    let m = k % per;
    assert(0 <= j < record_bytes(codes.len() as int, bits));
    lemma_packed_byte_range(bits, codes, j);
    assert(packed_record(bits, codes)[j] == packed_byte(bits, codes, j));
    assert forall|i: int| 0 <= #[trigger] code_or_zero(codes, i) < levels(bits) by {
        if 0 <= i < codes.len() {
            assert(codes[i] < levels(bits));
        }
    }
    assert(k == j * per + m);
    let c = Seq::new(per as nat, |i: int| code_or_zero(codes, j * per + i));
    assert(c[m] == code_or_zero(codes, k));
    assert(packed_byte(bits, codes, j) == digits(bits, codes, j * per, per as nat));
    if bits == 1 {
        assert(digits(bits, codes, j * per, per as nat) == c[0] + 2 * c[1] + 4 * c[2] + 8 * c[3]
            + 16 * c[4] + 32 * c[5] + 64 * c[6] + 128 * c[7]) by {
            reveal_with_fuel(digits, 9);
        }
        lemma_digits_base_2(c, m);
    } else if bits == 2 {
        assert(digits(bits, codes, j * per, per as nat) == c[0] + 4 * c[1] + 16 * c[2] + 64
            * c[3]) by {
            reveal_with_fuel(digits, 5);
        }
        lemma_digits_base_4(c, m);
    } else if bits == 4 {
        assert(digits(bits, codes, j * per, per as nat) == c[0] + 16 * c[1]) by {
            reveal_with_fuel(digits, 3);
        }
        lemma_digits_base_16(c[0], c[1], m);
    } else {
        assert(digits(bits, codes, j * per, per as nat) == c[0]) by {
            reveal_with_fuel(digits, 2);
        }
    }
}

/// A record holds room for every code of its vector.
pub proof fn lemma_record_room(width: int, bits: u32, k: int)
    requires
        valid_bits(bits),
        0 <= k < width,
    ensures
        width <= record_bytes(width, bits) * codes_per_byte(bits),
        1 <= record_bytes(width, bits) <= width,
        0 <= k / codes_per_byte(bits) < record_bytes(width, bits),
{
}

/// Unpacking the packed record of codes gives the codes back.
pub proof fn lemma_unpack_codes_of_packed(bits: u32, codes: Seq<u8>)
    requires
        valid_bits(bits),
        codes_fit(bits, codes),
    ensures
        unpacked_codes(bits, packed_record(bits, codes), codes.len() as int) == codes,
{
    let back = unpacked_codes(bits, packed_record(bits, codes), codes.len() as int);
    assert forall|k: int| 0 <= k < codes.len() implies back[k] == codes[k] by {
        lemma_record_room(codes.len() as int, bits, k);
        lemma_unpack_packed(bits, codes, k);
    }
    assert(back =~= codes);
}

/// Whether codes of `bits` bits can be packed.
pub fn is_valid_bits(bits: u32) -> (r: bool)
    ensures
        r == valid_bits(bits),
{
    bits == 1 || bits == 2 || bits == 4 || bits == 8
}

/// The number of values a code of `bits` bits can take.
pub fn level_count(bits: u32) -> (n: u32)
    ensures
        n == levels(bits),
{
    if bits == 1 {
        2
    } else if bits == 2 {
        4
    } else if bits == 4 {
        16
    } else {
        256
    }
}

/// The number of bytes that hold `width` codes of `bits` bits each.
pub(crate) fn bytes_per_record(width: u32, bits: u32) -> (n: u32)
    requires
        valid_bits(bits),
    ensures
        n == record_bytes(width as int, bits),
{
    assert(width * bits <= width * 8) by (nonlinear_arith)
        requires
            bits <= 8,
    ;
    let total: u64 = width as u64 * bits as u64 + 7;
    (total / 8) as u32
}

/// Eight one-bit codes in one byte, the first in the lowest bit.
fn merge_8(b: [u8; 8]) -> (r: u8)
    requires
        forall|i: int| 0 <= i < 8 ==> b[i] < 2,
    ensures
        r == b[0] + 2 * b[1] + 4 * b[2] + 8 * b[3] + 16 * b[4] + 32 * b[5] + 64 * b[6] + 128
            * b[7],
{
    let b0 = b[0];
    let b1 = b[1];
    let b2 = b[2];
    let b3 = b[3];
    let b4 = b[4];
    let b5 = b[5];
    let b6 = b[6];
    let b7 = b[7];
    assert(b0 | (b1 << 1) | (b2 << 2) | (b3 << 3) | (b4 << 4) | (b5 << 5) | (b6 << 6) | (b7 << 7)
        == b0 + 2 * b1 + 4 * b2 + 8 * b3 + 16 * b4 + 32 * b5 + 64 * b6 + 128 * b7)
        by (bit_vector)
        requires
            b0 < 2,
            b1 < 2,
            b2 < 2,
            b3 < 2,
            b4 < 2,
            b5 < 2,
            b6 < 2,
            b7 < 2,
    ;
    b0 | (b1 << 1) | (b2 << 2) | (b3 << 3) | (b4 << 4) | (b5 << 5) | (b6 << 6) | (b7 << 7)
}

/// Four two-bit codes in one byte, the first in the lowest bits.
fn merge_4(b: [u8; 4]) -> (r: u8)
    requires
        forall|i: int| 0 <= i < 4 ==> b[i] < 4,
    ensures
        r == b[0] + 4 * b[1] + 16 * b[2] + 64 * b[3],
{
    let b0 = b[0];
    let b1 = b[1];
    let b2 = b[2];
    let b3 = b[3];
    assert(b0 | (b1 << 2) | (b2 << 4) | (b3 << 6) == b0 + 4 * b1 + 16 * b2 + 64 * b3)
        by (bit_vector)
        requires
            b0 < 4,
            b1 < 4,
            b2 < 4,
            b3 < 4,
    ;
    b0 | (b1 << 2) | (b2 << 4) | (b3 << 6)
}

/// Two four-bit codes in one byte, the first in the low half.
fn merge_2(b: [u8; 2]) -> (r: u8)
    requires
        forall|i: int| 0 <= i < 2 ==> b[i] < 16,
    ensures
        r == b[0] + 16 * b[1],
{
    let b0 = b[0];
    let b1 = b[1];
    assert(b0 | (b1 << 4) == b0 + 16 * b1) by (bit_vector)
        requires
            b0 < 16,
            b1 < 16,
    ;
    b0 | (b1 << 4)
}

/// The code `offset` places behind `base`, or zero behind the last code.
fn padded_code(codes: &Vec<u8>, base: usize, offset: usize) -> (c: u8)
    requires
        base <= codes.len(),
    ensures
        c == code_or_zero(codes@, base + offset),
{
    if offset < codes.len() - base {
        codes[base + offset]
    } else {
        0
    }
}

/// Whether every code fits in `bits` bits.
pub fn check_codes(bits: u32, codes: &Vec<u8>) -> (r: bool)
    ensures
        r == codes_fit(bits, codes@),
{
    let limit = level_count(bits);
    let mut k: usize = 0;
    while k < codes.len()
        invariant
            k <= codes.len(),
            limit == levels(bits),
            forall|i: int| 0 <= i < k ==> (#[trigger] codes@[i]) < levels(bits),
        decreases codes.len() - k,
    {
        if codes[k] as u32 >= limit {
            return false;
        }
        k += 1;
    }
    true
}

/// Packs `codes` into a record of bytes.
///
/// Fails exactly when `bits` is no packable width or some code does not fit
/// in `bits` bits; otherwise the result is the packed record of `codes`.
pub fn pack_codes(bits: u32, codes: &Vec<u8>) -> (r: Option<Vec<u8>>)
    ensures
        r is Some <==> valid_bits(bits) && codes_fit(bits, codes@),
        r matches Some(v) ==> v@ == packed_record(bits, codes@),
{
    if !is_valid_bits(bits) {
        return None;
    }
    if !check_codes(bits, codes) {
        return None;
    }
    let n = codes.len();
    let per: usize = if bits == 1 {
        8
    } else if bits == 2 {
        4
    } else if bits == 4 {
        2
    } else {
        1
    };
    let bytes: usize = n / per + if n % per != 0 {
        1
    } else {
        0
    };
    assert(bytes == record_bytes(n as int, bits));
    let mut out: Vec<u8> = Vec::new();
    let mut j: usize = 0;
    while j < bytes
        invariant
            valid_bits(bits),
            codes_fit(bits, codes@),
            n == codes.len(),
            per == codes_per_byte(bits),
            bytes == record_bytes(n as int, bits),
            j <= bytes,
            out.len() == j,
            forall|t: int| 0 <= t < j ==> (#[trigger] out@[t]) == packed_byte(bits, codes@, t) as u8,
        decreases bytes - j,
    {
        assert(j * per < n) by {
            if bits == 1 {
                assert(j * 8 < n);
            } else if bits == 2 {
                assert(j * 4 < n);
            } else if bits == 4 {
                assert(j * 2 < n);
            }
        }
        let base: usize = j * per;
        proof {
            reveal_with_fuel(digits, 9);
            lemma_packed_byte_range(bits, codes@, j as int);
            assert forall|i: int| 0 <= #[trigger] code_or_zero(codes@, i) < levels(bits) by {
                if 0 <= i < codes.len() {
                    assert(codes@[i] < levels(bits));
                }
            }
        }
        let byte: u8 = if bits == 1 {
            merge_8(
                [
                    padded_code(codes, base, 0),
                    padded_code(codes, base, 1),
                    padded_code(codes, base, 2),
                    padded_code(codes, base, 3),
                    padded_code(codes, base, 4),
                    padded_code(codes, base, 5),
                    padded_code(codes, base, 6),
                    padded_code(codes, base, 7),
                ],
            )
        } else if bits == 2 {
            merge_4(
                [
                    padded_code(codes, base, 0),
                    padded_code(codes, base, 1),
                    padded_code(codes, base, 2),
                    padded_code(codes, base, 3),
                ],
            )
        } else if bits == 4 {
            merge_2([padded_code(codes, base, 0), padded_code(codes, base, 1)])
        } else {
            codes[base]
        };
        assert(byte == packed_byte(bits, codes@, j as int));
        out.push(byte);
        j += 1;
    }
    assert(out@ =~= packed_record(bits, codes@));
    Some(out)
}

/// Reads the code at position `k` of a packed record.
pub fn unpack_code(bits: u32, record: &[u8], k: usize) -> (c: u8)
    requires
        valid_bits(bits),
        (k as int) / codes_per_byte(bits) < record.len(),
    ensures
        c == unpacked_code(bits, record@, k as int),
        c < levels(bits),
{
    if bits == 1 {
        let byte = record[k / 8];
        let shift: u8 = (k % 8) as u8;
        assert((byte >> shift) & 1 == (byte / (1u8 << shift)) % 2) by (bit_vector)
            requires
                shift < 8,
        ;
        assert((1u8 << shift) == pow2_small(shift as int)) by {
            lemma_shift_is_power(shift);
        }
        (byte >> shift) & 1
    } else if bits == 2 {
        let byte = record[k / 4];
        let shift: u8 = 2 * ((k % 4) as u8);
        assert((byte >> shift) & 3 == (byte / (1u8 << shift)) % 4) by (bit_vector)
            requires
                shift < 8,
        ;
        assert((1u8 << shift) == pow2_small(shift as int)) by {
            lemma_shift_is_power(shift);
        }
        (byte >> shift) & 3
    } else if bits == 4 {
        let byte = record[k / 2];
        assert(byte & 15 == byte % 16) by (bit_vector);
        assert(byte >> 4 == (byte / 16) % 16) by (bit_vector);
        if k % 2 == 0 {
            byte & 15
        } else {
            byte >> 4
        }
    } else {
        record[k]
    }
}

/// Shifting one to the left inside a byte is a power of two.
proof fn lemma_shift_is_power(shift: u8)
    requires
        shift < 8,
    ensures
        (1u8 << shift) == pow2_small(shift as int),
{
    assert(1u8 << 0u8 == 1) by (bit_vector);
    assert(1u8 << 1u8 == 2) by (bit_vector);
    assert(1u8 << 2u8 == 4) by (bit_vector);
    assert(1u8 << 3u8 == 8) by (bit_vector);
    assert(1u8 << 4u8 == 16) by (bit_vector);
    assert(1u8 << 5u8 == 32) by (bit_vector);
    assert(1u8 << 6u8 == 64) by (bit_vector);
    assert(1u8 << 7u8 == 128) by (bit_vector);
}

/// Unpacks the first `width` codes of a packed record.
pub fn unpack_codes(bits: u32, record: &[u8], width: u32) -> (codes: Vec<u8>)
    requires
        valid_bits(bits),
        record.len() == record_bytes(width as int, bits),
    ensures
        codes@ == unpacked_codes(bits, record@, width as int),
        codes_fit(bits, codes@),
{
    let mut codes: Vec<u8> = Vec::new();
    let mut k: usize = 0;
    while k < width as usize
        invariant
            valid_bits(bits),
            record.len() == record_bytes(width as int, bits),
            k <= width,
            codes.len() == k,
            forall|i: int|
                0 <= i < k ==> (#[trigger] codes@[i]) == unpacked_code(bits, record@, i) as u8,
            forall|i: int| 0 <= i < k ==> (#[trigger] codes@[i]) < levels(bits),
        decreases width - k,
    {
        let c = unpack_code(bits, record, k);
        codes.push(c);
        k += 1;
    }
    assert(codes@ =~= unpacked_codes(bits, record@, width as int));
    codes
}

} // verus!
