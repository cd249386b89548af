//! Lookup tables: what each code contributes to a distance.
//!
//! A table has one row for each position of a code vector and, in each row,
//! one entry for each value a code can take. The distance of a code vector
//! is the sum of the entries that its codes select.

use crate::packing::{
    codes_fit, is_valid_bits, lemma_record_room, level_count, levels, record_bytes, unpack_code,
    unpacked_codes, valid_bits,
};
use vstd::prelude::*;

verus! {

/// A distance in fixed-point units. Smaller is nearer.
pub type Distance = u64;

/// The contributions of every code at every position, for one query.
#[derive(Debug)]
pub struct LookupTable {
    width: u32,
    bits: u32,
    entries: Vec<u32>,
}

impl Clone for LookupTable {
    /// A table of the same shape and entries.
    fn clone(&self) -> (t: LookupTable)
        ensures
            t.wf(),
            t.spec_width() == self.spec_width(),
            t.spec_bits() == self.spec_bits(),
            t.spec_entries() == self.spec_entries(),
    {
        proof {
            use_type_invariant(self);
        }
        let entries = self.entries.clone();
        assert(entries@ =~= self.entries@);
        LookupTable { width: self.width, bits: self.bits, entries }
    }
}

impl LookupTable {
    /// The code width is packable and there is one entry for each position
    /// and code value.
    #[verifier::type_invariant]
    pub closed spec fn wf(self) -> bool {
        &&& valid_bits(self.bits)
        &&& self.entries.len() == self.width * levels(self.bits)
    }

    /// The number of positions.
    pub closed spec fn spec_width(self) -> u32 {
        self.width
    }

    /// The number of bits of a code.
    pub closed spec fn spec_bits(self) -> u32 {
        self.bits
    }

    /// The entries, row after row.
    pub closed spec fn spec_entries(self) -> Seq<u32> {
        self.entries@
    }

    /// The contribution of `code` at position `position`.
    pub open spec fn spec_entry(self, position: int, code: int) -> int {
        self.spec_entries()[position * levels(self.spec_bits()) + code] as int
    }

    /// The sum of the contributions of the first `upto` codes.
    pub open spec fn score_prefix(self, codes: Seq<u8>, upto: int) -> int
        decreases upto,
    {
        if upto <= 0 {
            0
        } else {
            self.score_prefix(codes, upto - 1) + self.spec_entry(upto - 1, codes[upto - 1] as int)
        }
    }

    /// The distance of a code vector: the sum of the contributions of its
    /// codes.
    pub open spec fn spec_score(self, codes: Seq<u8>) -> int {
        self.score_prefix(codes, self.spec_width() as int)
    }

    /// What `wf` says, over the public names.
    pub proof fn lemma_wf(self)
        requires
            self.wf(),
        ensures
            valid_bits(self.spec_bits()),
            self.spec_entries().len() == self.spec_width() * levels(self.spec_bits()),
    {
    }

    /// A table over the given entries, row after row.
    ///
    /// Fails exactly when `bits` is no packable width or the number of
    /// entries is not `width * 2^bits`.
    pub fn new(width: u32, bits: u32, entries: Vec<u32>) -> (r: Option<LookupTable>)
        ensures
            r is Some <==> valid_bits(bits) && entries.len() == width * levels(bits),
            r matches Some(t) ==> t.wf() && t.spec_width() == width && t.spec_bits() == bits
                && t.spec_entries() == entries@,
    {
        if !is_valid_bits(bits) {
            return None;
        }
        let count = level_count(bits);
        assert(width * count <= 0xFFFF_FFFF * 256) by (nonlinear_arith)
            requires
                width <= 0xFFFF_FFFF,
                count <= 256,
        ;
        let expected: u64 = width as u64 * count as u64;
        if entries.len() as u64 != expected {
            return None;
        }
        Some(LookupTable { width, bits, entries })
    }

    /// A table whose entries are asked of `contribution`, once for each
    /// position and code value, row after row.
    ///
    /// Fails exactly when `bits` is no packable width.
    pub fn build<F: Fn(u32, u8) -> u32>(width: u32, bits: u32, contribution: &F) -> (r: Option<
        LookupTable,
    >)
        requires
            forall|position: u32, code: u8|
                position < width && code < levels(bits) ==> #[trigger] contribution.requires(
                    (position, code),
                ),
        ensures
            r is Some <==> valid_bits(bits),
            r matches Some(t) ==> t.wf() && t.spec_width() == width && t.spec_bits() == bits
                && forall|position: u32, code: u8|
                position < width && code < levels(bits) ==> #[trigger] contribution.ensures(
                    (position, code),
                    t.spec_entry(position as int, code as int) as u32,
                ),
    {
        if !is_valid_bits(bits) {
            return None;
        }
        let count = level_count(bits);
        let mut entries: Vec<u32> = Vec::new();
        let mut position: u32 = 0;
        while position < width
            invariant
                valid_bits(bits),
                count == levels(bits),
                position <= width,
                entries.len() == position * count,
                forall|p: u32, c: u8|
                    p < width && c < levels(bits) ==> #[trigger] contribution.requires((p, c)),
                forall|p: u32, c: u8|
                    p < position && c < count ==> #[trigger] contribution.ensures(
                        (p, c),
                        entries@[p * count + c],
                    ),
            decreases width - position,
        {
            let mut code: u32 = 0;
            while code < count
                invariant
                    valid_bits(bits),
                    count == levels(bits),
                    position < width,
                    code <= count,
                    entries.len() == position * count + code,
                    forall|p: u32, c: u8|
                        p < width && c < levels(bits) ==> #[trigger] contribution.requires((p, c)),
                    forall|p: u32, c: u8|
                        p < position && c < count ==> #[trigger] contribution.ensures(
                            (p, c),
                            entries@[p * count + c],
                        ),
                    forall|c: u8|
                        c < code ==> #[trigger] contribution.ensures(
                            (position, c),
                            entries@[position * count + c],
                        ),
                decreases count - code,
            {
                let ghost before = entries@;
                let entry = contribution(position, code as u8);
                entries.push(entry);
                proof {
                    assert forall|p: u32, c: u8| p < position && c < count implies #[trigger] contribution.ensures(
                        (p, c),
                        entries@[p * count + c],
                    ) by {
                        lemma_entry_index(position as int, count as int, p as int, c as int);
                        assert(entries@[p * count + c] == before[p * count + c]);
                    }
                    assert forall|c: u8| c < code + 1 implies #[trigger] contribution.ensures(
                        (position, c),
                        entries@[position * count + c],
                    ) by {
                        if c < code {
                            assert(entries@[position * count + c] == before[position * count + c]);
                        }
                    }
                }
                code += 1;
            }
            assert(position * count + count == (position + 1) * count) by (nonlinear_arith);
            position += 1;
        }
        Some(LookupTable { width, bits, entries })
    }

    /// The number of positions.
    pub fn width(&self) -> (w: u32)
        ensures
            self.wf(),
            w == self.spec_width(),
    {
        proof {
            use_type_invariant(self);
        }
        self.width
    }

    /// The number of bits of a code.
    pub fn bits(&self) -> (b: u32)
        ensures
            b == self.spec_bits(),
    {
        self.bits
    }

    /// The contribution of `code` at position `position`.
    pub fn entry(&self, position: u32, code: u8) -> (e: u32)
        requires
            position < self.spec_width(),
            code < levels(self.spec_bits()),
        ensures
            e == self.spec_entry(position as int, code as int),
    {
        proof {
            use_type_invariant(self);
            lemma_entry_index(
                self.width as int,
                levels(self.bits),
                position as int,
                code as int,
            );
        }
        let row: usize = position as usize * level_count(self.bits) as usize;
        self.entries[row + code as usize]
    }

    /// The distance of a code vector: the sum of the contributions of its
    /// codes.
    pub fn score(&self, codes: &[u8]) -> (d: Distance)
        requires
            codes.len() == self.spec_width(),
            codes_fit(self.spec_bits(), codes@),
        ensures
            d == self.spec_score(codes@),
    {
        let mut total: u64 = 0;
        let mut position: u32 = 0;
        while position < self.width
            invariant
                codes.len() == self.spec_width(),
                codes_fit(self.spec_bits(), codes@),
                position <= self.spec_width(),
                self.width == self.spec_width(),
                total == self.score_prefix(codes@, position as int),
                total <= position * 0xFFFF_FFFF,
            decreases self.width - position,
        {
            let code = codes[position as usize];
            let entry = self.entry(position, code);
            assert(position * 0xFFFF_FFFF + 0xFFFF_FFFF <= 0xFFFF_FFFF * 0xFFFF_FFFF + 0xFFFF_FFFF)
                by (nonlinear_arith)
                requires
                    position <= 0xFFFF_FFFF,
            ;
            total = total + entry as u64;
            position += 1;
        }
        total
    }
}

impl LookupTable {
    /// The distance of the code vector that a packed record holds.
    pub fn score_record(&self, record: &[u8]) -> (d: Distance)
        requires
            record.len() == record_bytes(self.spec_width() as int, self.spec_bits()),
        ensures
            d == self.spec_score(
                unpacked_codes(self.spec_bits(), record@, self.spec_width() as int),
            ),
    {
        proof {
            use_type_invariant(self);
        }
        let ghost codes = unpacked_codes(self.spec_bits(), record@, self.spec_width() as int);
        let mut total: u64 = 0;
        let mut position: u32 = 0;
        while position < self.width
            invariant
                valid_bits(self.spec_bits()),
                self.bits == self.spec_bits(),
                self.width == self.spec_width(),
                record.len() == record_bytes(self.spec_width() as int, self.spec_bits()),
                codes == unpacked_codes(self.spec_bits(), record@, self.spec_width() as int),
                position <= self.spec_width(),
                total == self.score_prefix(codes, position as int),
                total <= position * 0xFFFF_FFFF,
            decreases self.width - position,
        {
            proof {
                lemma_record_room(self.width as int, self.bits, position as int);
            }
            let code = unpack_code(self.bits, record, position as usize);
            assert(codes[position as int] == code);
            let entry = self.entry(position, code);
            assert(position * 0xFFFF_FFFF + 0xFFFF_FFFF <= 0xFFFF_FFFF * 0xFFFF_FFFF + 0xFFFF_FFFF)
                by (nonlinear_arith)
                requires
                    position <= 0xFFFF_FFFF,
            ;
            total = total + entry as u64;
            position += 1;
        }
        total
    }
}

/// One more code adds its contribution to the sum.
pub proof fn lemma_score_step(table: LookupTable, codes: Seq<u8>, upto: int)
    requires
        0 <= upto,
    ensures
        table.score_prefix(codes, upto + 1) == table.score_prefix(codes, upto) + table.spec_entry(
            upto,
            codes[upto] as int,
        ),
{
}

/// A sum of contributions fits in a distance.
pub proof fn lemma_score_bound(table: LookupTable, codes: Seq<u8>, upto: int)
    requires
        0 <= upto,
    ensures
        0 <= table.score_prefix(codes, upto) <= upto * 0xFFFF_FFFF,
    decreases upto,
{
    if upto > 0 {
        lemma_score_bound(table, codes, upto - 1);
    }
}

/// Two tables of one shape that agree on the entries that the codes select
/// give the codes one distance.
pub proof fn lemma_score_same_entries(a: LookupTable, b: LookupTable, codes: Seq<u8>, upto: int)
    requires
        0 <= upto <= codes.len(),
        forall|i: int|
            0 <= i < upto ==> a.spec_entry(i, codes[i] as int) == b.spec_entry(i, codes[i] as int),
    ensures
        a.score_prefix(codes, upto) == b.score_prefix(codes, upto),
    decreases upto,
{
    if upto > 0 {
        lemma_score_same_entries(a, b, codes, upto - 1);
    }
}

/// The entry of a position and a code lies inside the table.
pub proof fn lemma_entry_index(width: int, levels: int, position: int, code: int)
    requires
        0 <= position < width,
        0 <= code < levels,
    ensures
        0 <= position * levels,
        position * levels + code < width * levels,
{
    assert(0 <= position * levels && position * levels + levels <= width * levels)
        by (nonlinear_arith)
        requires
            0 <= position < width,
            0 < levels,
    ;
}

} // verus!
