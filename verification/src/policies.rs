//! Predefined separator policies.

use vstd::prelude::*;

verus! {

use crate::SeparatorPolicy;
use crate::digits;
use crate::model::{ascii_decimal_chars, ascii_hex_chars};

/// Policy for placing a comma every three decimal digits.
pub fn comma_separator() -> (r: SeparatorPolicy)
    ensures
        r.separator == ',',
        r.groups@ == seq![3u8],
        r.digits@ == ascii_decimal_chars(),
        r.wf(),
{
    let groups: Vec<u8> = vec![3];
    proof {
        assert(groups@ =~= seq![3u8]);
    }
    SeparatorPolicy { separator: ',', groups, digits: digits::ascii_decimal() }
}

/// Policy for placing a space every three decimal digits.
pub fn space_separator() -> (r: SeparatorPolicy)
    ensures
        r.separator == ' ',
        r.groups@ == seq![3u8],
        r.digits@ == ascii_decimal_chars(),
        r.wf(),
{
    let groups: Vec<u8> = vec![3];
    proof {
        assert(groups@ =~= seq![3u8]);
    }
    SeparatorPolicy { separator: ' ', groups, digits: digits::ascii_decimal() }
}

/// Policy for placing a period every three decimal digits.
pub fn dot_separator() -> (r: SeparatorPolicy)
    ensures
        r.separator == '.',
        r.groups@ == seq![3u8],
        r.digits@ == ascii_decimal_chars(),
        r.wf(),
{
    let groups: Vec<u8> = vec![3];
    proof {
        assert(groups@ =~= seq![3u8]);
    }
    SeparatorPolicy { separator: '.', groups, digits: digits::ascii_decimal() }
}

/// Policy for placing a space every four hexadecimal digits.
pub fn hex_four() -> (r: SeparatorPolicy)
    ensures
        r.separator == ' ',
        r.groups@ == seq![4u8],
        r.digits@ == ascii_hex_chars(),
        r.wf(),
{
    let groups: Vec<u8> = vec![4];
    proof {
        assert(groups@ =~= seq![4u8]);
    }
    SeparatorPolicy { separator: ' ', groups, digits: digits::ascii_hex() }
}

} // verus!
