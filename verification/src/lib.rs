//! Formatting numbers with separators between groups of digits: commas or
//! spaces every three digits from the right, or any other grouping given by
//! a [`SeparatorPolicy`].

use vstd::prelude::*;

pub mod digits;
pub mod laws;
pub mod helpers;
pub mod model;
pub mod policies;
mod text;

verus! {

use crate::model::{
    positive_groups,
    group_width,
    cum_width,
    is_sep_position,
    grouped,
    span_start,
    span_end,
    separated,
    ascii_decimal_chars,
    dec_digits,
    int_repr,
    lemma_span_start_at,
    lemma_span_end_at,
    lemma_span_start_bounds,
    lemma_cum_width_mono,
    lemma_not_sep_between,
    lemma_grouped_rev_step,
};
use vstd::string::StrSliceExecFns;

/// A policy for inserting separators into numbers.
///
/// The configurable aspects are the separator character, the group sizes,
/// and which characters count as digits.
#[derive(Debug, Clone)]
pub struct SeparatorPolicy {
    /// The separator to insert.
    pub separator: char,
    /// The grouping. The numbers in this list give the sizes of the groups,
    /// from right to left, with the last number giving the size of all
    /// further groups. So `[3]` groups by threes, while `[3, 2]` produces
    /// a grouping like `1,23,45,678`.
    pub groups: Vec<u8>,
    /// The characters that are considered digits. When several runs of
    /// digits are separated by non-digits, only the first run receives
    /// separators.
    pub digits: Vec<char>,
}

impl SeparatorPolicy {
    /// A policy is well formed when it has at least one group size and
    /// every group size is positive.
    pub open spec fn wf(&self) -> bool {
        self.groups@.len() >= 1 && positive_groups(self.groups@)
    }
}

/// The index of the first character of `cs` that is in `digits`, or the
/// length of `cs` when none is.
fn first_digit_index(cs: &Vec<char>, digits: &[char]) -> (r: usize)
    ensures
        r as int == span_start(cs@, digits@),
        r <= cs@.len(),
{
    let n = cs.len();
    let mut a: usize = 0;
    while a < n
        invariant
            a <= n,
            n == cs@.len(),
            forall|j: int| 0 <= j < a ==> !digits@.contains(#[trigger] cs@[j]),
        decreases n - a,
    {
        if text::contains_char(digits, cs[a]) {
            proof {
                lemma_span_start_at(cs@, digits@, a as int);
            }
            return a;
        }
        a = a + 1;
    }
    proof {
        lemma_span_start_at(cs@, digits@, n as int);
    }
    n
}

/// The index one past the run of `digits` characters beginning at `start`.
fn digit_run_end(cs: &Vec<char>, digits: &[char], start: usize) -> (r: usize)
    requires
        start as int == span_start(cs@, digits@),
        start <= cs@.len(),
    ensures
        r as int == span_end(cs@, digits@),
        start <= r <= cs@.len(),
{
    let n = cs.len();
    let mut b: usize = start;
    while b < n
        invariant
            start <= b <= n,
            n == cs@.len(),
            start as int == span_start(cs@, digits@),
            forall|j: int| start <= j < b ==> digits@.contains(#[trigger] cs@[j]),
        decreases n - b,
    {
        if !text::contains_char(digits, cs[b]) {
            proof {
                lemma_span_end_at(cs@, digits@, b as int);
            }
            return b;
        }
        b = b + 1;
    }
    proof {
        lemma_span_end_at(cs@, digits@, n as int);
    }
    n
}

/// Splits `s` around its first maximal run of characters from `digits`:
/// the part before the run, the run itself, and the part after it. When
/// `s` holds no such character, the whole of `s` is the first part.
pub fn find_span<'a>(s: &'a str, digits: &[char]) -> (r: (&'a str, &'a str, &'a str))
    ensures
        r.0@ == s@.take(span_start(s@, digits@)),
        r.1@ == s@.subrange(span_start(s@, digits@), span_end(s@, digits@)),
        r.2@ == s@.skip(span_end(s@, digits@)),
        r.0@ + r.1@ + r.2@ == s@,
{
    let cs = text::str_chars(s);
    let n = cs.len();
    let a = first_digit_index(&cs, digits);
    let b = digit_run_end(&cs, digits, a);
    proof {
        lemma_span_start_bounds(s@, digits@);
    }
    let pre = s.substring_char(0, a);
    let run = s.substring_char(a, b);
    let suf = s.substring_char(b, n);
    proof {
        assert(pre@ + run@ + suf@ =~= s@);
    }
    (pre, run, suf)
}

/// The digit run `number`, grouped under `groups` with separator `sep`, in
/// reverse order: the caller reads it back to front when assembling the
/// final text.
pub fn insert_separator_rev(number: &str, sep: char, groups: &[u8]) -> (r: String)
    requires
        groups@.len() >= 1,
        positive_groups(groups@),
    ensures
        r@ == grouped(number@, sep, groups@).reverse(),
{
    let cs = text::str_chars(number);
    let n = cs.len();
    let mut buf: Vec<char> = Vec::new();
    let mut gi: usize = 0;
    let mut counter: usize = 0;
    let ghost mut j: int = 0;
    let mut k: usize = 0;
    proof {
        assert(buf@ =~= grouped(cs@.skip(n as int), sep, groups@).reverse());
    }
    while k < n
        invariant
            cs@ == number@,
            n == cs@.len(),
            k <= n,
            groups@.len() >= 1,
            positive_groups(groups@),
            0 <= j,
            gi as int == if j < groups@.len() {
                j
            } else {
                groups@.len() - 1
            },
            counter as int <= group_width(groups@, j),
            k as int == cum_width(groups@, j) + counter,
            counter == 0 ==> j == 0,
            buf@ == grouped(cs@.skip(n - k), sep, groups@).reverse(),
        decreases n - k,
    {
        let ghost ds = cs@.skip(n - k - 1);
        proof {
            assert(ds.drop_first() =~= cs@.skip(n - k));
            assert(ds[0] == cs@[n - 1 - k]);
            lemma_grouped_rev_step(ds, sep, groups@);
        }
        if counter == groups[gi] as usize {
            // the current group is full: a separator goes before this digit
            proof {
                assert(counter as int == group_width(groups@, j));
                assert(cum_width(groups@, j + 1) == cum_width(groups@, j) + group_width(
                    groups@,
                    j,
                ));
                assert(k as int == cum_width(groups@, j + 1));
                lemma_cum_width_mono(groups@, 1, j + 1);
                assert(cum_width(groups@, 0) == 0);
                assert(cum_width(groups@, 1) == group_width(groups@, 0));
                assert(k as int >= 1);
                assert(is_sep_position(groups@, k as int));
            }
            buf.push(sep);
            counter = 0;
            proof {
                j = j + 1;
            }
            if gi + 1 < groups.len() {
                gi = gi + 1;
            }
        } else {
            proof {
                if counter >= 1 {
                    lemma_not_sep_between(groups@, j, k as int);
                }
                assert(!is_sep_position(groups@, k as int));
            }
        }
        counter = counter + 1;
        buf.push(cs[n - 1 - k]);
        k = k + 1;
        proof {
            assert(buf@ =~= grouped(cs@.skip(n - k), sep, groups@).reverse());
        }
    }
    proof {
        assert(cs@.skip(0) =~= cs@);
    }
    text::chars_to_string(&buf)
}

/// Grouping applied to a pre-rendered text: the first maximal digit run of
/// `text` receives the policy's separators, and everything around the run
/// is kept as it stands.
pub fn separate_text(text: &str, policy: &SeparatorPolicy) -> (r: String)
    requires
        policy.wf(),
    ensures
        r@ == separated(text@, policy.separator, policy.groups@, policy.digits@),
{
    let (before, number, after) = find_span(text, policy.digits.as_slice());
    let formatted = insert_separator_rev(number, policy.separator, policy.groups.as_slice());
    let fchars = text::str_chars(formatted.as_str());
    let mut rev: Vec<char> = Vec::new();
    let flen = fchars.len();
    let mut k: usize = flen;
    proof {
        assert(rev@ =~= fchars@.skip(k as int).reverse());
    }
    while k > 0
        invariant
            k <= flen,
            flen == fchars@.len(),
            rev@ == fchars@.skip(k as int).reverse(),
        decreases k,
    {
        k = k - 1;
        rev.push(fchars[k]);
        proof {
            assert(rev@ =~= fchars@.skip(k as int).reverse());
        }
    }
    proof {
        assert(fchars@.skip(0) =~= fchars@);
        assert(grouped(number@, policy.separator, policy.groups@).reverse().reverse() =~= grouped(
            number@,
            policy.separator,
            policy.groups@,
        ));
    }
    let middle = text::chars_to_string(&rev);
    let mut result = before.to_owned();
    result.append(middle.as_str());
    result.append(after);
    result
}

/// Anything that renders itself as text and can have separators inserted
/// between the digits of that text.
pub trait Separable {
    /// The characters of the value's text rendering.
    spec fn text_repr(&self) -> Seq<char>;

    /// The value's text rendering.
    fn to_text(&self) -> (r: String)
        ensures
            r@ == self.text_repr(),
    ;

    /// The value's text with its first digit run grouped under `policy`.
    fn separate_by_policy(&self, policy: &SeparatorPolicy) -> (r: String)
        requires
            policy.wf(),
        ensures
            r@ == separated(self.text_repr(), policy.separator, policy.groups@, policy.digits@),
    {
        let rendered = self.to_text();
        separate_text(rendered.as_str(), policy)
    }

    /// Inserts a comma every three decimal digits from the right.
    fn separate_with_commas(&self) -> (r: String)
        ensures
            r@ == separated(self.text_repr(), ',', seq![3u8], ascii_decimal_chars()),
    {
        let policy = policies::comma_separator();
        self.separate_by_policy(&policy)
    }

    /// Inserts a space every three decimal digits from the right.
    fn separate_with_spaces(&self) -> (r: String)
        ensures
            r@ == separated(self.text_repr(), ' ', seq![3u8], ascii_decimal_chars()),
    {
        let policy = policies::space_separator();
        self.separate_by_policy(&policy)
    }

    /// Inserts a period every three decimal digits from the right.
    fn separate_with_dots(&self) -> (r: String)
        ensures
            r@ == separated(self.text_repr(), '.', seq![3u8], ascii_decimal_chars()),
    {
        let policy = policies::dot_separator();
        self.separate_by_policy(&policy)
    }
}

impl Separable for str {
    open spec fn text_repr(&self) -> Seq<char> {
        self@
    }

    fn to_text(&self) -> (r: String) {
        self.to_owned()
    }
}

impl Separable for String {
    open spec fn text_repr(&self) -> Seq<char> {
        self@
    }

    fn to_text(&self) -> (r: String) {
        self.clone()
    }
}

impl Separable for u64 {
    open spec fn text_repr(&self) -> Seq<char> {
        dec_digits(*self as int)
    }

    fn to_text(&self) -> (r: String) {
        let mut v: Vec<char> = Vec::new();
        text::push_digits(*self, &mut v);
        proof {
            assert(v@ =~= dec_digits(*self as int));
        }
        text::chars_to_string(&v)
    }
}

impl Separable for i64 {
    open spec fn text_repr(&self) -> Seq<char> {
        int_repr(*self as int)
    }

    fn to_text(&self) -> (r: String) {
        let mut v: Vec<char> = Vec::new();
        if *self < 0 {
            v.push('-');
            let mag = (-(*self as i128)) as u64;
            proof {
                assert(mag as int == -(*self as int));
            }
            text::push_digits(mag, &mut v);
            proof {
                assert(v@ =~= int_repr(*self as int));
            }
        } else {
            text::push_digits(*self as u64, &mut v);
            proof {
                assert(v@ =~= int_repr(*self as int));
            }
        }
        text::chars_to_string(&v)
    }
}

impl Separable for u8 {
    open spec fn text_repr(&self) -> Seq<char> {
        dec_digits(*self as int)
    }

    fn to_text(&self) -> (r: String) {
        (*self as u64).to_text()
    }
}

impl Separable for u16 {
    open spec fn text_repr(&self) -> Seq<char> {
        dec_digits(*self as int)
    }

    fn to_text(&self) -> (r: String) {
        (*self as u64).to_text()
    }
}

impl Separable for u32 {
    open spec fn text_repr(&self) -> Seq<char> {
        dec_digits(*self as int)
    }

    fn to_text(&self) -> (r: String) {
        (*self as u64).to_text()
    }
}

impl Separable for usize {
    open spec fn text_repr(&self) -> Seq<char> {
        dec_digits(*self as int)
    }

    fn to_text(&self) -> (r: String) {
        (*self as u64).to_text()
    }
}

impl Separable for i8 {
    open spec fn text_repr(&self) -> Seq<char> {
        int_repr(*self as int)
    }

    fn to_text(&self) -> (r: String) {
        (*self as i64).to_text()
    }
}

impl Separable for i16 {
    open spec fn text_repr(&self) -> Seq<char> {
        int_repr(*self as int)
    }

    fn to_text(&self) -> (r: String) {
        (*self as i64).to_text()
    }
}

impl Separable for i32 {
    open spec fn text_repr(&self) -> Seq<char> {
        int_repr(*self as int)
    }

    fn to_text(&self) -> (r: String) {
        (*self as i64).to_text()
    }
}

impl Separable for isize {
    open spec fn text_repr(&self) -> Seq<char> {
        int_repr(*self as int)
    }

    fn to_text(&self) -> (r: String) {
        (*self as i64).to_text()
    }
}

} // verus!
