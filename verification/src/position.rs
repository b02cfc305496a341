//! Position-encoding arithmetic: translating a character column within a line
//! into a protocol column expressed in one of three negotiated code-unit
//! encodings, and back.
use vstd::prelude::*;

verus! {

/// The code-unit encoding negotiated once per session.
#[derive(Clone, Copy, PartialEq, Eq, Debug, Structural)]
pub enum Encoding {
    /// Columns are counted in bytes of the character's canonical byte form.
    Utf8,
    /// Columns are counted in 16-bit code units.
    Utf16,
    /// Columns are counted in whole characters (codepoints).
    Utf32,
}

/// Number of bytes the character occupies in its canonical byte form.
pub open spec fn spec_utf8_width(c: char) -> int {
    if (c as u32) < 0x80 {
        1
    } else if (c as u32) < 0x800 {
        2
    } else if (c as u32) < 0x10000 {
        3
    } else {
        4
    }
}

/// Number of 16-bit code units the character occupies.
pub open spec fn spec_utf16_width(c: char) -> int {
    if (c as u32) < 0x10000 {
        1
    } else {
        2
    }
}

/// Number of code units one character spans under the given encoding.
pub open spec fn spec_unit_width(c: char, enc: Encoding) -> int {
    match enc {
        Encoding::Utf8 => spec_utf8_width(c),
        Encoding::Utf16 => spec_utf16_width(c),
        Encoding::Utf32 => 1,
    }
}

/// Code units spanned by the first `col` characters of `line`.
pub open spec fn spec_units_of_prefix(line: Seq<char>, col: int, enc: Encoding) -> int
    decreases col,
{
    if col <= 0 {
        0
    } else {
        spec_units_of_prefix(line, col - 1, enc) + spec_unit_width(line[col - 1], enc)
    }
}

/// Every character spans at least one code unit.
pub proof fn lemma_unit_width_at_least_one(c: char, enc: Encoding)
    ensures
        1 <= spec_unit_width(c, enc) <= 4,
{
}

/// Unit counts of prefixes grow strictly with the column.
pub proof fn lemma_units_strictly_monotone(line: Seq<char>, a: int, b: int, enc: Encoding)
    requires
        0 <= a < b <= line.len(),
    ensures
        spec_units_of_prefix(line, a, enc) + (b - a) <= spec_units_of_prefix(line, b, enc),
    decreases b,
{
    if a < b - 1 {
        lemma_units_strictly_monotone(line, a, b - 1, enc);
    }
    lemma_unit_width_at_least_one(line[b - 1], enc);
}

/// Prefixes of equal unit count are prefixes of equal length: unit counts
/// identify the character column uniquely within a line.
pub proof fn lemma_units_injective(line: Seq<char>, a: int, b: int, enc: Encoding)
    requires
        0 <= a <= line.len(),
        0 <= b <= line.len(),
        spec_units_of_prefix(line, a, enc) == spec_units_of_prefix(line, b, enc),
    ensures
        a == b,
{
    if a < b {
        lemma_units_strictly_monotone(line, a, b, enc);
    }
    if b < a {
        lemma_units_strictly_monotone(line, b, a, enc);
    }
}

/// The character column whose prefix spans exactly `units` code units, where
/// one exists; by injectivity there is at most one.
pub open spec fn spec_decode_col(line: Seq<char>, units: int, enc: Encoding) -> Option<int> {
    if exists|c: int| 0 <= c <= line.len() && spec_units_of_prefix(line, c, enc) == units {
        Some(
            choose|c: int| 0 <= c <= line.len() && spec_units_of_prefix(line, c, enc) == units,
        )
    } else {
        None
    }
}

/// A column that attains the unit count is the decoded column.
pub proof fn lemma_decode_col_unique(line: Seq<char>, units: int, enc: Encoding, c: int)
    requires
        0 <= c <= line.len(),
        spec_units_of_prefix(line, c, enc) == units,
    ensures
        spec_decode_col(line, units, enc) == Some(c),
{
    let c2 = choose|c2: int|
        0 <= c2 <= line.len() && spec_units_of_prefix(line, c2, enc) == units;
    lemma_units_injective(line, c, c2, enc);
}

/// Code units one character spans under the given encoding.
pub fn unit_width(c: char, enc: Encoding) -> (w: u32)
    ensures
        w == spec_unit_width(c, enc),
{
    let v = c as u32;
    match enc {
        Encoding::Utf8 => {
            if v < 0x80 {
                1
            } else if v < 0x800 {
                2
            } else if v < 0x10000 {
                3
            } else {
                4
            }
        },
        Encoding::Utf16 => {
            if v < 0x10000 {
                1
            } else {
                2
            }
        },
        Encoding::Utf32 => 1,
    }
}

/// Protocol column of character column `col` within `line`: the code units
/// spanned by the first `col` characters, computed fresh from the line's
/// current content. Returns `None` when `col` is out of range or the unit
/// count does not fit the protocol's 32-bit column type.
pub fn units_of_prefix(line: &Vec<char>, col: usize, enc: Encoding) -> (r: Option<u32>)
    ensures
        r is Some <==> col <= line@.len() && spec_units_of_prefix(line@, col as int, enc)
            <= u32::MAX,
        r is Some ==> r->0 == spec_units_of_prefix(line@, col as int, enc),
{
    if col > line.len() {
        return None;
    }
    let mut acc: u32 = 0;
    let mut i: usize = 0;
    while i < col
        invariant
            0 <= i <= col <= line@.len(),
            acc == spec_units_of_prefix(line@, i as int, enc),
        decreases col - i,
    {
        let w = unit_width(line[i], enc);
        if acc > u32::MAX - w {
            proof {
                lemma_units_strictly_monotone(line@, i as int, i + 1, enc);
                if i + 1 < col {
                    lemma_units_strictly_monotone(line@, i + 1, col as int, enc);
                }
            }
            return None;
        }
        acc = acc + w;
        i = i + 1;
    }
    Some(acc)
}

/// Character column whose prefix spans exactly `units` code units in `line`,
/// the inverse of `units_of_prefix` where one exists. `None` when `units`
/// falls inside a multi-unit character or beyond the line.
pub fn char_col_of_units(line: &Vec<char>, units: u64, enc: Encoding) -> (r: Option<usize>)
    ensures
        match r {
            Some(c) => c <= line@.len() && spec_units_of_prefix(line@, c as int, enc) == units,
            None => forall|c: int|
                0 <= c <= line@.len() ==> spec_units_of_prefix(line@, c, enc) != units,
        },
{
    let mut acc: u128 = 0;
    let mut i: usize = 0;
    while acc < units as u128 && i < line.len()
        invariant
            0 <= i <= line@.len(),
            acc == spec_units_of_prefix(line@, i as int, enc),
            acc <= units as u128 + 4,
            forall|c: int| 0 <= c < i ==> spec_units_of_prefix(line@, c, enc) < units,
        decreases line@.len() - i,
    {
        let w = unit_width(line[i], enc);
        acc = acc + w as u128;
        i = i + 1;
    }
    if acc == units as u128 {
        Some(i)
    } else {
        proof {
            assert forall|c: int| 0 <= c <= line@.len() implies spec_units_of_prefix(
                line@,
                c,
                enc,
            ) != units by {
                if i <= c <= line@.len() {
                    if i < c {
                        lemma_units_strictly_monotone(line@, i as int, c, enc);
                    }
                }
            }
        }
        None
    }
}

} // verus!
