//! Collections of digit characters, for building
//! [`SeparatorPolicy`](crate::SeparatorPolicy) values.

use vstd::prelude::*;

verus! {

use crate::model::{ascii_decimal_chars, ascii_hex_chars};

/// The decimal digits, in ASCII.
pub fn ascii_decimal() -> (r: Vec<char>)
    ensures
        r@ == ascii_decimal_chars(),
{
    let v: Vec<char> = vec!['0', '1', '2', '3', '4', '5', '6', '7', '8', '9'];
    proof {
        assert(v@ =~= ascii_decimal_chars());
    }
    v
}

/// The hexadecimal digits, in ASCII, lower case and upper case.
pub fn ascii_hex() -> (r: Vec<char>)
    ensures
        r@ == ascii_hex_chars(),
{
    let v: Vec<char> = vec![
        '0',
        '1',
        '2',
        '3',
        '4',
        '5',
        '6',
        '7',
        '8',
        '9',
        'a',
        'b',
        'c',
        'd',
        'e',
        'f',
        'A',
        'B',
        'C',
        'D',
        'E',
        'F',
    ];
    proof {
        assert(v@ =~= ascii_hex_chars());
    }
    v
}

} // verus!
