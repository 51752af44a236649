//! The mathematical model of digit grouping.
//!
//! A digit run is split into groups, counted from the least-significant
//! (rightmost) digit. The group sizes come from a list read left to right:
//! the first entry is the size of the rightmost group, and the last entry
//! is the size of every further group toward the most significant digit.
//! A separator stands exactly where the number of digits to its right is
//! the total width of some initial run of groups.

use vstd::prelude::*;

verus! {

/// Every group size in the list is positive.
pub open spec fn positive_groups(groups: Seq<u8>) -> bool {
    forall|i: int| 0 <= i < groups.len() ==> groups[i] >= 1
}

/// The size of the `j`-th group, counted from the rightmost digit.
/// Beyond the end of the list the last size repeats.
pub open spec fn group_width(groups: Seq<u8>, j: int) -> int {
    if groups.len() == 0 {
        0
    } else if j < groups.len() {
        groups[j] as int
    } else {
        groups[groups.len() - 1] as int
    }
}

/// The number of digits covered by the `j` rightmost groups.
pub open spec fn cum_width(groups: Seq<u8>, j: int) -> int
    decreases j,
{
    if j <= 0 {
        0
    } else {
        cum_width(groups, j - 1) + group_width(groups, j - 1)
    }
}

/// Does a separator stand at the point with exactly `m` digits to its right?
/// It does exactly when `m` digits fill some initial run of groups.
pub open spec fn is_sep_position(groups: Seq<u8>, m: int) -> bool {
    0 < m && exists|j: int| 1 <= j && cum_width(groups, j) == m
}

/// The separator flags for a run of `n` digits, most significant digit
/// first: flag `i` says whether a separator follows the digit at index `i`.
pub open spec fn sep_flags(groups: Seq<u8>, n: int) -> Seq<bool> {
    Seq::new(n as nat, |i: int| is_sep_position(groups, n - 1 - i))
}

/// The digit run `ds` (most significant digit first) with the separator
/// `sep` inserted after every digit that closes a group, except at the
/// very end of the run.
pub open spec fn grouped(ds: Seq<char>, sep: char, groups: Seq<u8>) -> Seq<char>
    decreases ds.len(),
{
    if ds.len() == 0 {
        Seq::empty()
    } else if is_sep_position(groups, ds.len() - 1) {
        seq![ds[0], sep] + grouped(ds.drop_first(), sep, groups)
    } else {
        seq![ds[0]] + grouped(ds.drop_first(), sep, groups)
    }
}

/// The index of the first character classified as a digit, or the length
/// of the string when there is none.
pub open spec fn span_start(s: Seq<char>, digits: Seq<char>) -> int
    decreases s.len(),
{
    if s.len() == 0 {
        0
    } else if digits.contains(s[0]) {
        0
    } else {
        1 + span_start(s.drop_first(), digits)
    }
}

/// The length of the run of digit characters at the front of `s`.
pub open spec fn digit_run_len(s: Seq<char>, digits: Seq<char>) -> int
    decreases s.len(),
{
    if s.len() == 0 {
        0
    } else if !digits.contains(s[0]) {
        0
    } else {
        1 + digit_run_len(s.drop_first(), digits)
    }
}

/// One past the last character of the first maximal digit run.
pub open spec fn span_end(s: Seq<char>, digits: Seq<char>) -> int {
    span_start(s, digits) + digit_run_len(s.skip(span_start(s, digits)), digits)
}

/// The whole transformation: the first maximal digit run of `s` is grouped,
/// and everything before and after it is kept as it stands.
pub open spec fn separated(s: Seq<char>, sep: char, groups: Seq<u8>, digits: Seq<char>) -> Seq<
    char,
> {
    s.take(span_start(s, digits)) + grouped(
        s.subrange(span_start(s, digits), span_end(s, digits)),
        sep,
        groups,
    ) + s.skip(span_end(s, digits))
}

/// The decimal digit characters.
pub open spec fn ascii_decimal_chars() -> Seq<char> {
    seq!['0', '1', '2', '3', '4', '5', '6', '7', '8', '9']
}

/// The hexadecimal digit characters, lower case before upper case.
pub open spec fn ascii_hex_chars() -> Seq<char> {
    ascii_decimal_chars() + seq!['a', 'b', 'c', 'd', 'e', 'f', 'A', 'B', 'C', 'D', 'E', 'F']
}

/// The character for a single decimal digit.
pub open spec fn digit_char(d: int) -> char {
    if d == 0 {
        '0'
    } else if d == 1 {
        '1'
    } else if d == 2 {
        '2'
    } else if d == 3 {
        '3'
    } else if d == 4 {
        '4'
    } else if d == 5 {
        '5'
    } else if d == 6 {
        '6'
    } else if d == 7 {
        '7'
    } else if d == 8 {
        '8'
    } else {
        '9'
    }
}

/// The decimal digit characters of a non-negative integer, most
/// significant digit first.
pub open spec fn dec_digits(n: int) -> Seq<char>
    decreases n,
{
    if n <= 9 {
        seq![digit_char(n)]
    } else {
        dec_digits(n / 10) + seq![digit_char(n % 10)]
    }
}

/// The decimal text of an integer: a minus sign before the digits of the
/// magnitude when it is negative.
pub open spec fn int_repr(n: int) -> Seq<char> {
    if n >= 0 {
        dec_digits(n)
    } else {
        seq!['-'] + dec_digits(-n)
    }
}

/// Widths accumulate: every further group adds at least one digit.
pub proof fn lemma_cum_width_mono(groups: Seq<u8>, j1: int, j2: int)
    requires
        positive_groups(groups),
        groups.len() >= 1,
        0 <= j1 <= j2,
    ensures
        cum_width(groups, j1) + (j2 - j1) <= cum_width(groups, j2),
    decreases j2 - j1,
{
    if j1 < j2 {
        lemma_cum_width_mono(groups, j1, j2 - 1);
    }
}

/// Beyond the end of the group list, each group has the last listed width.
pub proof fn lemma_cum_width_beyond(groups: Seq<u8>, j: int, k: int)
    requires
        groups.len() >= 1,
        j >= groups.len() - 1,
        k >= 0,
    ensures
        cum_width(groups, j + k) == cum_width(groups, j) + k * group_width(
            groups,
            groups.len() - 1,
        ),
    decreases k,
{
    let last = group_width(groups, groups.len() - 1);
    if k == 0 {
        assert(k * last == 0) by (nonlinear_arith)
            requires
                k == 0,
        ;
    } else {
        lemma_cum_width_beyond(groups, j, k - 1);
        assert(cum_width(groups, j + k) == cum_width(groups, j + k - 1) + group_width(
            groups,
            j + k - 1,
        ));
        assert(group_width(groups, j + k - 1) == last);
        assert((k - 1) * last + last == k * last) by (nonlinear_arith);
    }
}

/// Strictly between two consecutive group boundaries no separator stands.
pub proof fn lemma_not_sep_between(groups: Seq<u8>, j: int, m: int)
    requires
        positive_groups(groups),
        groups.len() >= 1,
        j >= 0,
        cum_width(groups, j) < m < cum_width(groups, j + 1),
    ensures
        !is_sep_position(groups, m),
{
    assert forall|j2: int| 1 <= j2 implies cum_width(groups, j2) != m by {
        if j2 <= j {
            lemma_cum_width_mono(groups, j2, j);
        } else {
            lemma_cum_width_mono(groups, j + 1, j2);
        }
    }
}

/// Where `span_start` points: everything before it is a non-digit, and it
/// points at a digit unless there is none.
pub proof fn lemma_span_start_bounds(s: Seq<char>, digits: Seq<char>)
    ensures
        0 <= span_start(s, digits) <= s.len(),
        forall|i: int| 0 <= i < span_start(s, digits) ==> !digits.contains(#[trigger] s[i]),
        span_start(s, digits) < s.len() ==> digits.contains(s[span_start(s, digits)]),
    decreases s.len(),
{
    if s.len() > 0 && !digits.contains(s[0]) {
        lemma_span_start_bounds(s.drop_first(), digits);
        assert forall|i: int| 0 <= i < span_start(s, digits) implies !digits.contains(
            #[trigger] s[i],
        ) by {
            if i >= 1 {
                assert(s[i] == s.drop_first()[i - 1]);
            }
        }
    }
}

/// `span_start` is the first digit position: knowing that the characters
/// before `i` are non-digits and the one at `i` is a digit (or that `i` is
/// the end) fixes it.
pub proof fn lemma_span_start_at(s: Seq<char>, digits: Seq<char>, i: int)
    requires
        0 <= i <= s.len(),
        forall|j: int| 0 <= j < i ==> !digits.contains(#[trigger] s[j]),
        i < s.len() ==> digits.contains(s[i]),
    ensures
        span_start(s, digits) == i,
    decreases i,
{
    if i > 0 {
        lemma_span_start_at(s.drop_first(), digits, i - 1);
    }
}

/// Where the digit run ends: everything in it is a digit, and the character
/// after it is not, unless the run reaches the end.
pub proof fn lemma_digit_run_len_bounds(s: Seq<char>, digits: Seq<char>)
    ensures
        0 <= digit_run_len(s, digits) <= s.len(),
        forall|i: int| 0 <= i < digit_run_len(s, digits) ==> digits.contains(#[trigger] s[i]),
        digit_run_len(s, digits) < s.len() ==> !digits.contains(s[digit_run_len(s, digits)]),
    decreases s.len(),
{
    if s.len() > 0 && digits.contains(s[0]) {
        lemma_digit_run_len_bounds(s.drop_first(), digits);
        assert forall|i: int| 0 <= i < digit_run_len(s, digits) implies digits.contains(
            #[trigger] s[i],
        ) by {
            if i >= 1 {
                assert(s[i] == s.drop_first()[i - 1]);
            }
        }
    }
}

/// The digit run length is fixed by the first non-digit position.
pub proof fn lemma_digit_run_len_at(s: Seq<char>, digits: Seq<char>, k: int)
    requires
        0 <= k <= s.len(),
        forall|j: int| 0 <= j < k ==> digits.contains(#[trigger] s[j]),
        k < s.len() ==> !digits.contains(s[k]),
    ensures
        digit_run_len(s, digits) == k,
    decreases k,
{
    if k > 0 {
        lemma_digit_run_len_at(s.drop_first(), digits, k - 1);
    }
}

/// `span_end` is where the digit run stops: digits from `span_start` up to
/// `b`, and a non-digit at `b` unless the run reaches the end.
pub proof fn lemma_span_end_at(s: Seq<char>, digits: Seq<char>, b: int)
    requires
        span_start(s, digits) <= b <= s.len(),
        forall|j: int| span_start(s, digits) <= j < b ==> digits.contains(#[trigger] s[j]),
        b < s.len() ==> !digits.contains(s[b]),
    ensures
        span_end(s, digits) == b,
{
    let a = span_start(s, digits);
    lemma_span_start_bounds(s, digits);
    let rest = s.skip(a);
    assert forall|j: int| 0 <= j < b - a implies digits.contains(#[trigger] rest[j]) by {
        assert(rest[j] == s[a + j]);
    }
    if b < s.len() {
        assert(rest[b - a] == s[b]);
    }
    lemma_digit_run_len_at(rest, digits, b - a);
}

/// Reading a grouped run backwards: the digits after the first, reversed,
/// then the separator the first digit may ask for, then the first digit.
pub proof fn lemma_grouped_rev_step(ds: Seq<char>, sep: char, groups: Seq<u8>)
    requires
        ds.len() >= 1,
    ensures
        grouped(ds, sep, groups).reverse() == grouped(ds.drop_first(), sep, groups).reverse() + (
        if is_sep_position(groups, ds.len() - 1) {
            seq![sep]
        } else {
            Seq::<char>::empty()
        }) + seq![ds[0]],
{
    let g = grouped(ds.drop_first(), sep, groups);
    if is_sep_position(groups, ds.len() - 1) {
        assert(grouped(ds, sep, groups) == seq![ds[0], sep] + g);
        assert((seq![ds[0], sep] + g).reverse() =~= g.reverse() + seq![sep] + seq![ds[0]]);
    } else {
        assert(grouped(ds, sep, groups) == seq![ds[0]] + g);
        assert((seq![ds[0]] + g).reverse() =~= g.reverse() + Seq::<char>::empty() + seq![ds[0]]);
    }
}

/// Grouping never loses a digit: the result is at least as long as the run,
/// and it starts with the run's first digit.
pub proof fn lemma_grouped_len(ds: Seq<char>, sep: char, groups: Seq<u8>)
    ensures
        grouped(ds, sep, groups).len() >= ds.len(),
        ds.len() > 0 ==> grouped(ds, sep, groups)[0] == ds[0],
    decreases ds.len(),
{
    if ds.len() > 0 {
        lemma_grouped_len(ds.drop_first(), sep, groups);
    }
}

} // verus!
