//! Ordering of similarity scores.
//!
//! Scores are 32-bit IEEE-754 values carried as their bit patterns. This
//! module defines a total order on those bit patterns that agrees with the
//! numeric order of the encoded values wherever that order is defined:
//! `score_key` maps a bit pattern to a `u32` key such that comparing keys
//! compares the encoded numbers, the two zeroes share one key, and every
//! NaN pattern maps to the largest key so NaN scores rank after every
//! other score and are evicted first by the top-k selector.

use vstd::prelude::*;

verus! {

/// Whether `bits` encodes an IEEE-754 single-precision NaN: exponent bits
/// all set and a non-zero mantissa.
pub open spec fn spec_is_nan(bits: u32) -> bool {
    bits & 0x7f80_0000 == 0x7f80_0000 && bits & 0x007f_ffff != 0
}

/// The sort key of a score bit pattern.
///
/// For non-NaN patterns the map is strictly monotone in the encoded value:
/// non-negative values keep their magnitude order above `0x8000_0000`,
/// negative values are flipped below it, and the negative zero pattern is
/// identified with positive zero. Every NaN pattern maps to `u32::MAX`.
pub open spec fn spec_score_key(bits: u32) -> u32 {
    if spec_is_nan(bits) {
        0xffff_ffffu32
    } else if bits == 0x8000_0000 {
        0x8000_0000u32
    } else if bits & 0x8000_0000 == 0x8000_0000 {
        !bits
    } else {
        bits | 0x8000_0000
    }
}

/// Whether `bits` encodes a NaN.
pub fn is_nan_bits(bits: u32) -> (b: bool)
    ensures
        b == spec_is_nan(bits),
{
    bits & 0x7f80_0000 == 0x7f80_0000 && bits & 0x007f_ffff != 0
}

/// The sort key of a score bit pattern; see [`spec_score_key`].
pub fn score_key(bits: u32) -> (key: u32)
    ensures
        key == spec_score_key(bits),
{
    if is_nan_bits(bits) {
        0xffff_ffff
    } else if bits == 0x8000_0000 {
        0x8000_0000
    } else if bits & 0x8000_0000 == 0x8000_0000 {
        !bits
    } else {
        bits | 0x8000_0000
    }
}

/// A NaN score ranks after every other score: its key is strictly the
/// largest, so the top-k selector evicts NaN-scored entries first.
pub proof fn lemma_nan_key_largest(a: u32, b: u32)
    requires
        !spec_is_nan(a),
        spec_is_nan(b),
    ensures
        spec_score_key(a) < spec_score_key(b),
{
    assert(!(a & 0x7f80_0000 == 0x7f80_0000 && a & 0x007f_ffff != 0) ==> (if a == 0x8000_0000 {
        0x8000_0000u32
    } else if a & 0x8000_0000 == 0x8000_0000 {
        !a
    } else {
        a | 0x8000_0000
    }) < 0xffff_ffffu32) by (bit_vector);
}

/// The comparison a numeric metadata query asks for.
#[derive(Debug, Clone, Copy, PartialEq, Eq, Structural)]
pub enum MetadataEqualities {
    GreaterEqualThan,
    GreaterThan,
    LesserEqualThan,
    LesserThan,
    Equal,
}

/// Whether a stored numeric metadata value with bit pattern `meta` stands in
/// relation `equality` to the queried value with bit pattern `value`.
///
/// A NaN on either side satisfies no relation, matching IEEE-754 comparison
/// semantics; otherwise the keys of [`spec_score_key`] decide, which agree
/// with numeric order on non-NaN values.
pub open spec fn spec_number_matches(meta: u32, value: u32, equality: MetadataEqualities) -> bool {
    if spec_is_nan(meta) || spec_is_nan(value) {
        false
    } else {
        match equality {
            MetadataEqualities::GreaterEqualThan => spec_score_key(meta) >= spec_score_key(value),
            MetadataEqualities::GreaterThan => spec_score_key(meta) > spec_score_key(value),
            MetadataEqualities::LesserEqualThan => spec_score_key(meta) <= spec_score_key(value),
            MetadataEqualities::LesserThan => spec_score_key(meta) < spec_score_key(value),
            MetadataEqualities::Equal => spec_score_key(meta) == spec_score_key(value),
        }
    }
}

/// Decides [`spec_number_matches`] on two score bit patterns.
pub fn number_matches(meta: u32, value: u32, equality: MetadataEqualities) -> (b: bool)
    ensures
        b == spec_number_matches(meta, value, equality),
{
    if is_nan_bits(meta) || is_nan_bits(value) {
        false
    } else {
        let m = score_key(meta);
        let v = score_key(value);
        match equality {
            MetadataEqualities::GreaterEqualThan => m >= v,
            MetadataEqualities::GreaterThan => m > v,
            MetadataEqualities::LesserEqualThan => m <= v,
            MetadataEqualities::LesserThan => m < v,
            MetadataEqualities::Equal => m == v,
        }
    }
}

/// Whether `c` equals keyword character `k` up to ASCII case: either exactly,
/// or `k` is a lower-case letter and `c` is its upper-case form.
pub open spec fn spec_char_matches_ci(c: char, k: char) -> bool {
    c == k || (97 <= k as u32 <= 122 && c as u32 + 32 == k as u32)
}

/// Whether `s` matches the lower-case keyword `kw` up to ASCII case.
pub open spec fn spec_matches_ci(s: Seq<char>, kw: Seq<char>) -> bool {
    s.len() == kw.len() && forall|i: int|
        0 <= i < s.len() ==> spec_char_matches_ci(#[trigger] s[i], kw[i])
}

/// Decides [`spec_matches_ci`] against a lower-case keyword.
fn matches_keyword_ci(s: &str, kw: &str) -> (b: bool)
    ensures
        b == spec_matches_ci(s@, kw@),
{
    let n = kw.unicode_len();
    if s.unicode_len() != n {
        return false;
    }
    for i in 0..n
        invariant
            n == kw@.len(),
            s@.len() == n,
            forall|j: int| 0 <= j < i ==> spec_char_matches_ci(#[trigger] s@[j], kw@[j]),
    {
        let c = s.get_char(i);
        let k = kw.get_char(i);
        let cu = c as u32;
        let ku = k as u32;
        if !(c == k || (97 <= ku && ku <= 122 && cu + 32 == ku)) {
            return false;
        }
    }
    true
}

impl MetadataEqualities {
    /// Parses the name of a comparison, ignoring ASCII case. Returns `None`
    /// for any string naming no comparison.
    pub fn from_str(s: &str) -> (r: Option<MetadataEqualities>)
        ensures
            r == Some(MetadataEqualities::GreaterEqualThan) <==> spec_matches_ci(
                s@,
                "greater_equal_than"@,
            ),
            r == Some(MetadataEqualities::GreaterThan) <==> spec_matches_ci(s@, "greater_than"@),
            r == Some(MetadataEqualities::LesserEqualThan) <==> spec_matches_ci(
                s@,
                "lesser_equal_than"@,
            ),
            r == Some(MetadataEqualities::LesserThan) <==> spec_matches_ci(s@, "lesser_than"@),
            r == Some(MetadataEqualities::Equal) <==> spec_matches_ci(s@, "equal"@),
            r is None <==> !spec_matches_ci(s@, "greater_equal_than"@) && !spec_matches_ci(
                s@,
                "greater_than"@,
            ) && !spec_matches_ci(s@, "lesser_equal_than"@) && !spec_matches_ci(s@, "lesser_than"@)
                && !spec_matches_ci(s@, "equal"@),
    {
        proof {
            reveal_strlit("greater_equal_than");
            reveal_strlit("greater_than");
            reveal_strlit("lesser_equal_than");
            reveal_strlit("lesser_than");
            reveal_strlit("equal");
        }
        if matches_keyword_ci(s, "greater_equal_than") {
            Some(MetadataEqualities::GreaterEqualThan)
        } else if matches_keyword_ci(s, "greater_than") {
            Some(MetadataEqualities::GreaterThan)
        } else if matches_keyword_ci(s, "lesser_equal_than") {
            Some(MetadataEqualities::LesserEqualThan)
        } else if matches_keyword_ci(s, "lesser_than") {
            Some(MetadataEqualities::LesserThan)
        } else if matches_keyword_ci(s, "equal") {
            Some(MetadataEqualities::Equal)
        } else {
            None
        }
    }
}

} // verus!
