//! Small executable helpers on strings, characters and character sets.

use vstd::prelude::*;

verus! {

use vstd::string::StrSliceExecFns;
use vstd::std_specs::iter::IteratorSpec;
use crate::model::{digit_char, dec_digits};

/// The characters of a string, in order, as a vector.
pub(crate) fn str_chars(s: &str) -> (r: Vec<char>)
    ensures
        r@ == s@,
{
    broadcast use vstd::string::next_postcondition, vstd::string::axiom_spec_iter;

    let n = s.unicode_len();
    let mut it = s.chars();
    let mut r: Vec<char> = Vec::new();
    let mut i: usize = 0;
    proof {
        assert(s@.skip(0) =~= s@);
        assert(r@ =~= s@.take(0));
    }
    while i < n
        invariant
            n == s@.len(),
            i <= n,
            r@ == s@.take(i as int),
            it.obeys_prophetic_iter_laws(),
            it.remaining() == s@.skip(i as int),
        decreases n - i,
    {
        let c = it.next().unwrap();
        proof {
            assert(s@.skip(i as int)[0] == s@[i as int]);
            assert(s@.skip(i as int).drop_first() =~= s@.skip(i as int + 1));
            assert(r@.push(c) =~= s@.take(i as int + 1));
        }
        r.push(c);
        i = i + 1;
    }
    proof {
        assert(r@ =~= s@);
    }
    r
}

/// Relies on `String`'s `FromIterator` over characters: collecting the
/// characters of `v` yields the string that holds exactly those characters.
#[verifier::external_body]
pub(crate) fn chars_to_string(v: &Vec<char>) -> (r: String)
    ensures
        r@ == v@,
{
    v.iter().collect()
}

/// A copy of a byte slice as a vector.
pub(crate) fn copy_bytes(src: &[u8]) -> (r: Vec<u8>)
    ensures
        r@ == src@,
{
    let n = src.len();
    let mut r: Vec<u8> = Vec::new();
    let mut i: usize = 0;
    while i < n
        invariant
            i <= n,
            n == src@.len(),
            r@ == src@.take(i as int),
        decreases n - i,
    {
        r.push(src[i]);
        i = i + 1;
        proof {
            assert(r@ =~= src@.take(i as int));
        }
    }
    proof {
        assert(r@ =~= src@);
    }
    r
}

/// The character for one decimal digit.
pub(crate) fn digit_char_of(d: u64) -> (r: char)
    requires
        d <= 9,
    ensures
        r == digit_char(d as int),
{
    if d == 0 {
        '0'
    } else if d == 1 {
        '1'
    } else if d == 2 {
        '2'
    } else if d == 3 {
        '3'
    } else if d == 4 {
        '4'
    } else if d == 5 {
        '5'
    } else if d == 6 {
        '6'
    } else if d == 7 {
        '7'
    } else if d == 8 {
        '8'
    } else {
        '9'
    }
}

/// Appends the decimal digits of `m`, most significant first.
pub(crate) fn push_digits(m: u64, out: &mut Vec<char>)
    ensures
        final(out)@ == old(out)@ + dec_digits(m as int),
    decreases m,
{
    if m <= 9 {
        out.push(digit_char_of(m));
        proof {
            assert(old(out)@.push(digit_char(m as int)) =~= old(out)@ + dec_digits(m as int));
        }
    } else {
        push_digits(m / 10, out);
        out.push(digit_char_of(m % 10));
        proof {
            assert((old(out)@ + dec_digits(m as int / 10)).push(digit_char(m as int % 10)) =~= old(
                out,
            )@ + dec_digits(m as int));
        }
    }
}

/// Does the character set `cs` hold the character `c`?
pub(crate) fn contains_char(cs: &[char], c: char) -> (r: bool)
    ensures
        r == cs@.contains(c),
{
    let n = cs.len();
    let mut i: usize = 0;
    while i < n
        invariant
            i <= n,
            n == cs@.len(),
            forall|j: int| 0 <= j < i ==> cs@[j] != c,
        decreases n - i,
    {
        if cs[i] == c {
            return true;
        }
        i = i + 1;
    }
    false
}

} // verus!
