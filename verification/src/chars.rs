//! Classification of ASCII bytes and the pairwise word-boundary rule.

use vstd::prelude::*;

verus! {

/// A terminator byte marks an explicit word boundary: `_`, `-` or space.
pub open spec fn is_terminator_byte(c: u8) -> bool {
    c == 95 || c == 45 || c == 32
}

pub open spec fn is_lower_byte(c: u8) -> bool {
    97 <= c && c <= 122
}

pub open spec fn is_upper_byte(c: u8) -> bool {
    65 <= c && c <= 90
}

/// ASCII whitespace: space, tab, line feed, vertical tab, form feed,
/// carriage return.
pub open spec fn is_whitespace_byte(c: u8) -> bool {
    c == 32 || (9 <= c && c <= 13)
}

pub open spec fn to_lower_byte(c: u8) -> u8 {
    if is_upper_byte(c) {
        (c + 32) as u8
    } else {
        c
    }
}

pub open spec fn to_upper_byte(c: u8) -> u8 {
    if is_lower_byte(c) {
        (c - 32) as u8
    } else {
        c
    }
}

/// A token split is inserted between `left` and `right` when the pair is a
/// camelCase transition, or when `right` starts a run of terminators.
pub open spec fn should_split_at(left: u8, right: u8) -> bool {
    (is_lower_byte(left) && is_upper_byte(right)) || (!is_terminator_byte(left)
        && is_terminator_byte(right))
}

/// Decide whether `c` is a terminator byte (`_`, `-` or space).
pub fn is_terminator(c: u8) -> (r: bool)
    ensures
        r == is_terminator_byte(c),
{
    c == 95 || c == 45 || c == 32
}

/// Decide whether a token boundary falls between the adjacent bytes
/// `left` and `right`.
pub fn should_split(left: u8, right: u8) -> (r: bool)
    ensures
        r == should_split_at(left, right),
{
    97 <= left && left <= 122 && 65 <= right && right <= 90 || !is_terminator(left)
        && is_terminator(right)
}

} // verus!
