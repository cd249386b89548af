//! The block-transposed layout of four-bit codes.
//!
//! Vectors are taken in blocks of 32; a last block that is not full repeats
//! the last vector. A block stores its codes column by column: the 32 codes
//! that the vectors of the block have at one position take 16 bytes. Byte
//! `k` of a column holds slot `k / 2 + 8 * (k % 2)` of the block in its low
//! half and the slot 16 further in its high half.

use crate::lookup::{lemma_score_bound, lemma_score_step, Distance, LookupTable};
use crate::packing::{check_codes, codes_fit};
use crate::views::rows;
use vstd::arithmetic::div_mod::lemma_fundamental_div_mod_converse;
use vstd::prelude::*;

verus! {

/// The number of vectors in one block.
pub const BLOCK_SIZE: u32 = 32;

/// The number of blocks that hold `n` vectors.
pub open spec fn blocks_for(n: int) -> int {
    (n + 31) / 32
}

/// The slot whose code sits in the low half of byte `k` of a column.
pub open spec fn low_slot(k: int) -> int {
    k / 2 + 8 * (k % 2)
}

/// The byte of a column that holds the code of `slot`.
pub open spec fn slot_byte(slot: int) -> int {
    2 * (slot % 8) + (slot % 16) / 8
}

/// The vector whose codes fill slot `slot` of block `block`, of `n` vectors:
/// behind the last vector, the last vector again.
pub open spec fn slot_vector(n: int, block: int, slot: int) -> int {
    if 32 * block + slot < n {
        32 * block + slot
    } else {
        n - 1
    }
}

/// Every row has `width` codes and every code fits in four bits.
pub open spec fn well_formed_rows(width: int, rows: Seq<Seq<u8>>) -> bool {
    forall|r: int|
        0 <= r < rows.len() ==> (#[trigger] rows[r]).len() == width && codes_fit(4, rows[r])
}

/// Byte `k` of column `column`, where the columns of all blocks are counted
/// through: column `b * width + i` holds position `i` of block `b`.
pub open spec fn column_byte(width: int, rows: Seq<Seq<u8>>, column: int, k: int) -> int {
    let block = column / width;
    let i = column % width;
    let n = rows.len() as int;
    rows[slot_vector(n, block, low_slot(k))][i] + 16 * rows[slot_vector(
        n,
        block,
        low_slot(k) + 16,
    )][i]
}

/// The block-transposed bytes of `rows`.
pub open spec fn packed_blocks(width: int, rows: Seq<Seq<u8>>) -> Seq<u8> {
    Seq::new(
        (blocks_for(rows.len() as int) * width * 16) as nat,
        |p: int| column_byte(width, rows, p / 16, p % 16) as u8,
    )
}

/// The place, among block-transposed bytes, of the byte that holds the code
/// of vector `id` at position `i`.
pub open spec fn packed_position(width: int, id: int, i: int) -> int {
    ((id / 32) * width + i) * 16 + slot_byte(id % 32)
}

/// The code of vector `id` at position `i`, read from block-transposed
/// bytes: the low half of its byte for the first 16 slots of a block, the
/// high half for the others.
pub open spec fn packed_code(packed: Seq<u8>, width: int, id: int, i: int) -> int {
    let byte = packed[packed_position(width, id, i)] as int;
    if id % 32 < 16 {
        byte % 16
    } else {
        byte / 16
    }
}

/// The byte of a code lies inside the bytes of its block.
pub proof fn lemma_packed_position_bound(width: int, blocks: int, id: int, i: int)
    requires
        0 <= i < width,
        0 <= id < 32 * blocks,
    ensures
        0 <= (id / 32) * width,
        0 <= packed_position(width, id, i) < blocks * width * 16,
        packed_position(width, id, i) / 16 == (id / 32) * width + i,
        packed_position(width, id, i) % 16 == slot_byte(id % 32),
        ((id / 32) * width + i) / width == id / 32,
        ((id / 32) * width + i) % width == i,
{
    let b = id / 32;
    assert(0 <= b * width && b * width + width <= blocks * width) by (nonlinear_arith)
        requires
            0 <= b < blocks,
            0 < width,
    ;
    lemma_fundamental_div_mod_converse(b * width + i, width, b, i);
}

/// Reading a code from the block-transposed bytes of `rows` gives the code
/// of that vector and, in the slots behind the last vector, of the last one.
pub proof fn lemma_packed_code(width: int, rows: Seq<Seq<u8>>, id: int, i: int)
    requires
        well_formed_rows(width, rows),
        0 <= i < width,
        0 <= id < 32 * blocks_for(rows.len() as int),
    ensures
        0 <= packed_position(width, id, i) < packed_blocks(width, rows).len(),
        packed_code(packed_blocks(width, rows), width, id, i) == rows[slot_vector(
            rows.len() as int,
            id / 32,
            id % 32,
        )][i],
{
    let n = rows.len() as int;
    let blocks = blocks_for(n);
    lemma_packed_position_bound(width, blocks, id, i);
    let p = packed_position(width, id, i);
    let k = slot_byte(id % 32);
    let lo = slot_vector(n, id / 32, low_slot(k));
    let hi = slot_vector(n, id / 32, low_slot(k) + 16);
    assert(0 <= lo < n && 0 <= hi < n);
    assert(rows[lo].len() == width && codes_fit(4, rows[lo]));
    assert(rows[hi].len() == width && codes_fit(4, rows[hi]));
    assert(rows[lo][i] < 16 && rows[hi][i] < 16);
    assert(packed_blocks(width, rows)[p] == column_byte(width, rows, p / 16, p % 16) as u8);
}

/// Packs code vectors into the block-transposed layout.
///
/// Fails exactly when some vector has not `width` codes or holds a code of
/// more than four bits; otherwise the result is the block-transposed bytes
/// of the vectors.
pub fn pack(width: u32, vectors: &Vec<Vec<u8>>) -> (r: Option<Vec<u8>>)
    ensures
        r is Some <==> well_formed_rows(width as int, rows(vectors@)),
        r matches Some(v) ==> v@ == packed_blocks(width as int, rows(vectors@)),
{
    let n = vectors.len();
    let ghost rs = rows(vectors@);
    let mut r: usize = 0;
    while r < n
        invariant
            n == vectors.len(),
            rs == rows(vectors@),
            r <= n,
            forall|t: int|
                0 <= t < r ==> (#[trigger] rs[t]).len() == width && codes_fit(4, rs[t]),
        decreases n - r,
    {
        assert(rs[r as int] == vectors@[r as int]@);
        if vectors[r].len() != width as usize || !check_codes(4, &vectors[r]) {
            return None;
        }
        r += 1;
    }
    let mut out: Vec<u8> = Vec::new();
    if n == 0 || width == 0 {
        assert(blocks_for(n as int) * width * 16 == 0) by (nonlinear_arith)
            requires
                n == 0 || width == 0,
                blocks_for(n as int) == (n + 31) / 32,
        ;
        assert(out@ =~= packed_blocks(width as int, rs));
        return Some(out);
    }
    let blocks: usize = n / 32 + if n % 32 != 0 {
        1
    } else {
        0
    };
    let ghost w = width as int;
    let mut b: usize = 0;
    let ghost mut column: int = 0;
    while b < blocks
        invariant
            n == vectors.len(),
            n > 0,
            w == width,
            w > 0,
            rs == rows(vectors@),
            well_formed_rows(w, rs),
            blocks == blocks_for(n as int),
            b <= blocks,
            column == b * w,
            out.len() == column * 16,
            forall|p: int|
                0 <= p < out.len() ==> (#[trigger] out@[p]) == column_byte(w, rs, p / 16, p % 16)
                    as u8,
        decreases blocks - b,
    {
        let base: usize = 32 * b;
        let rest: usize = n - 1 - base;
        let mut i: usize = 0;
        while i < width as usize
            invariant
                n == vectors.len(),
                n > 0,
                w == width,
                w > 0,
                rs == rows(vectors@),
                well_formed_rows(w, rs),
                b < blocks,
                blocks == blocks_for(n as int),
                base == 32 * b,
                rest == n - 1 - base,
                i <= width,
                column == b * w + i,
                out.len() == column * 16,
                forall|p: int|
                    0 <= p < out.len() ==> (#[trigger] out@[p]) == column_byte(
                        w,
                        rs,
                        p / 16,
                        p % 16,
                    ) as u8,
            decreases width - i,
        {
            proof {
                lemma_fundamental_div_mod_converse(column, w, b as int, i as int);
            }
            let mut k: usize = 0;
            while k < 16
                invariant
                    n == vectors.len(),
                    n > 0,
                    w == width,
                    rs == rows(vectors@),
                    well_formed_rows(w, rs),
                    base == 32 * b,
                    rest == n - 1 - base,
                    i < width,
                    column / w == b,
                    column % w == i,
                    k <= 16,
                    out.len() == column * 16 + k,
                    forall|p: int|
                        0 <= p < out.len() ==> (#[trigger] out@[p]) == column_byte(
                            w,
                            rs,
                            p / 16,
                            p % 16,
                        ) as u8,
                decreases 16 - k,
            {
                let slot: usize = k / 2 + 8 * (k % 2);
                let lo_id: usize = base + if slot < rest {
                    slot
                } else {
                    rest
                };
                let hi_id: usize = base + if slot + 16 < rest {
                    slot + 16
                } else {
                    rest
                };
                assert(lo_id == slot_vector(n as int, b as int, low_slot(k as int)));
                assert(hi_id == slot_vector(n as int, b as int, low_slot(k as int) + 16));
                assert(rs[lo_id as int] == vectors@[lo_id as int]@);
                assert(rs[hi_id as int] == vectors@[hi_id as int]@);
                assert(rs[lo_id as int].len() == w && codes_fit(4, rs[lo_id as int]));
                assert(rs[hi_id as int].len() == w && codes_fit(4, rs[hi_id as int]));
                let lo: u8 = vectors[lo_id][i];
                let hi: u8 = vectors[hi_id][i];
                assert(lo == rs[lo_id as int][i as int] && hi == rs[hi_id as int][i as int]);
                assert(lo < 16 && hi < 16);
                assert(lo | (hi << 4) == lo + 16 * hi) by (bit_vector)
                    requires
                        lo < 16,
                        hi < 16,
                ;
                let ghost before = out@;
                let ghost place = before.len() as int;
                assert(place / 16 == column && place % 16 == k);
                assert(column_byte(w, rs, column, k as int) == lo + 16 * hi);
                out.push(lo | (hi << 4));
                k += 1;
                assert forall|p: int| 0 <= p < out.len() implies (#[trigger] out@[p])
                    == column_byte(w, rs, p / 16, p % 16) as u8 by {
                    if p < place {
                        assert(out@[p] == before[p]);
                    } else {
                        assert(p == place);
                        assert(out@[p] == (lo + 16 * hi) as u8);
                    }
                }
            }
            i += 1;
            proof {
                column = column + 1;
            }
        }
        b += 1;
        assert(column == b * w) by (nonlinear_arith)
            requires
                column == (b - 1) * w + w,
        ;
    }
    assert(out.len() == blocks_for(n as int) * w * 16) by (nonlinear_arith)
        requires
            out.len() == column * 16,
            column == b * w,
            b == blocks_for(n as int),
    ;
    assert(out@ =~= packed_blocks(w, rs));
    Some(out)
}

/// Reads the code at position `i` of slot `slot` of block `block` from
/// block-transposed bytes.
pub fn read_packed_code(packed: &[u8], width: u32, block: u32, slot: u32, i: u32) -> (c: u8)
    requires
        slot < 32,
        i < width,
        packed_position(width as int, 32 * block + slot, i as int) < packed.len(),
    ensures
        c == packed_code(packed@, width as int, 32 * block + slot, i as int),
        c < 16,
{
    let ghost id = 32 * block + slot;
    assert(id / 32 == block && id % 32 == slot);
    assert(0 <= block * width && block * width + i <= (block * width + i) * 16) by (nonlinear_arith)
        requires
            0 <= block,
            0 <= width,
            0 <= i,
    ;
    let column: usize = block as usize * width as usize + i as usize;
    let position: usize = column * 16 + (2 * (slot % 8) + (slot % 16) / 8) as usize;
    let byte = packed[position];
    assert(byte & 15 == byte % 16 && byte >> 4 == byte / 16 && byte >> 4 < 16) by (bit_vector);
    if slot < 16 {
        byte & 15
    } else {
        byte >> 4
    }
}

/// The codes of vector `id`, read from block-transposed bytes.
pub open spec fn block_codes(packed: Seq<u8>, width: int, id: int) -> Seq<u8> {
    Seq::new(width as nat, |i: int| packed_code(packed, width, id, i) as u8)
}

/// How many codes of slot `slot` have been added once byte `k` of column
/// `i` is reached.
pub open spec fn scanned(slot: int, k: int, i: int) -> int {
    if slot_byte(slot) < k {
        i + 1
    } else {
        i
    }
}

/// Byte `k` of column `i` of a block holds the codes of two slots.
pub proof fn lemma_scan_byte(packed: Seq<u8>, width: int, block: int, i: int, k: int)
    requires
        0 <= i < width,
        0 <= k < 16,
        0 <= block,
        (block + 1) * width * 16 <= packed.len(),
    ensures
        0 <= block * width,
        0 <= (block * width + i) * 16 + k < packed.len(),
        0 <= low_slot(k) < 16,
        packed_code(packed, width, 32 * block + low_slot(k), i) == packed[(block * width + i) * 16
            + k] % 16,
        packed_code(packed, width, 32 * block + low_slot(k) + 16, i) == packed[(block * width + i)
            * 16 + k] / 16,
        forall|slot: int|
            0 <= slot < 32 ==> (slot_byte(slot) == k <==> slot == low_slot(k) || slot == low_slot(k)
                + 16),
{
    let lo = low_slot(k);
    lemma_packed_position_bound(width, block + 1, 32 * block + lo, i);
    lemma_packed_position_bound(width, block + 1, 32 * block + lo + 16, i);
    assert((32 * block + lo) / 32 == block && (32 * block + lo) % 32 == lo);
    assert((32 * block + lo + 16) / 32 == block && (32 * block + lo + 16) % 32 == lo + 16);
    assert(slot_byte(lo) == k && slot_byte(lo + 16) == k);
    assert((block + 1) * width * 16 == (block * width + width) * 16) by (nonlinear_arith);
}

/// Scores the 32 slots of one block in one pass over its bytes: every byte
/// is read once and adds to the distances of the two slots it holds.
///
/// The result has the distance of every slot of the block, in the order of
/// the slots: the sum of what the table gives for its codes.
pub fn scan_block(table: &LookupTable, packed: &[u8], block: u32) -> (scores: Vec<Distance>)
    requires
        table.spec_bits() == 4,
        (block + 1) * table.spec_width() * 16 <= packed.len(),
    ensures
        scores.len() == 32,
        forall|slot: int|
            0 <= slot < 32 ==> (#[trigger] scores@[slot]) == table.spec_score(
                block_codes(packed@, table.spec_width() as int, 32 * block + slot),
            ),
{
    let width = table.width();
    let ghost w = width as int;
    let mut scores: Vec<Distance> = Vec::new();
    let mut s: usize = 0;
    while s < 32
        invariant
            s <= 32,
            scores.len() == s,
            forall|t: int| 0 <= t < s ==> (#[trigger] scores@[t]) == 0,
        decreases 32 - s,
    {
        scores.push(0);
        s += 1;
    }
    let mut i: u32 = 0;
    while i < width
        invariant
            table.spec_bits() == 4,
            width == table.spec_width(),
            w == width,
            (block + 1) * w * 16 <= packed.len(),
            i <= width,
            scores.len() == 32,
            forall|t: int|
                0 <= t < 32 ==> (#[trigger] scores@[t]) == table.score_prefix(
                    block_codes(packed@, w, 32 * block + t),
                    i as int,
                ),
        decreases width - i,
    {
        let mut k: usize = 0;
        while k < 16
            invariant
                table.spec_bits() == 4,
                width == table.spec_width(),
                w == width,
                (block + 1) * w * 16 <= packed.len(),
                i < width,
                k <= 16,
                scores.len() == 32,
                forall|t: int|
                    0 <= t < 32 ==> (#[trigger] scores@[t]) == table.score_prefix(
                        block_codes(packed@, w, 32 * block + t),
                        scanned(t, k as int, i as int),
                    ),
            decreases 16 - k,
        {
            let lo: usize = k / 2 + 8 * (k % 2);
            let hi: usize = lo + 16;
            let ghost low_codes = block_codes(packed@, w, 32 * block + lo);
            let ghost high_codes = block_codes(packed@, w, 32 * block + hi);
            proof {
                lemma_scan_byte(packed@, w, block as int, i as int, k as int);
                lemma_score_bound(*table, low_codes, i as int);
                lemma_score_bound(*table, high_codes, i as int);
                lemma_score_step(*table, low_codes, i as int);
                lemma_score_step(*table, high_codes, i as int);
                assert(i * 0xFFFF_FFFF + 0xFFFF_FFFF <= 0xFFFF_FFFF * 0xFFFF_FFFF + 0xFFFF_FFFF)
                    by (nonlinear_arith)
                    requires
                        i <= 0xFFFF_FFFF,
                ;
                assert(scores@[lo as int] == table.score_prefix(low_codes, i as int));
                assert(scores@[hi as int] == table.score_prefix(high_codes, i as int));
            }
            let column: usize = block as usize * width as usize + i as usize;
            let byte = packed[column * 16 + k];
            assert(byte & 15 == byte % 16 && byte >> 4 == byte / 16 && byte >> 4 < 16
                && byte & 15 < 16) by (bit_vector);
            let low_code: u8 = byte & 15;
            let high_code: u8 = byte >> 4;
            assert(low_codes[i as int] == low_code);
            assert(high_codes[i as int] == high_code);
            let low_entry = table.entry(i, low_code);
            let high_entry = table.entry(i, high_code);
            let ghost before = scores@;
            let low_total: u64 = scores[lo] + low_entry as u64;
            scores[lo] = low_total;
            let high_total: u64 = scores[hi] + high_entry as u64;
            scores[hi] = high_total;
            assert(scores@ == before.update(lo as int, low_total).update(hi as int, high_total));
            assert(low_total == table.score_prefix(low_codes, i + 1));
            assert(high_total == table.score_prefix(high_codes, i + 1));
            assert forall|t: int| 0 <= t < 32 implies (#[trigger] scores@[t]) == table.score_prefix(
                block_codes(packed@, w, 32 * block + t),
                scanned(t, k + 1, i as int),
            ) by {
                if t == lo as int {
                } else if t == hi as int {
                } else {
                    assert(slot_byte(t) != k);
                    assert(scores@[t] == before[t]);
                    assert(scanned(t, k + 1, i as int) == scanned(t, k as int, i as int));
                }
            }
            k += 1;
        }
        assert forall|t: int| 0 <= t < 32 implies (#[trigger] scores@[t]) == table.score_prefix(
            block_codes(packed@, w, 32 * block + t),
            i + 1,
        ) by {
            assert(scanned(t, 16, i as int) == i + 1);
        }
        i += 1;
    }
    scores
}

} // verus!
