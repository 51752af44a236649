//! Laws of the grouping model: what the library promises beyond the
//! contract of each single function.

use vstd::prelude::*;

verus! {

use crate::model::{
    positive_groups,
    group_width,
    cum_width,
    is_sep_position,
    grouped,
    span_start,
    span_end,
    separated,
    ascii_decimal_chars,
    dec_digits,
    digit_char,
    lemma_cum_width_mono,
    lemma_cum_width_beyond,
    lemma_span_start_at,
    lemma_span_end_at,
    lemma_grouped_len,
};
use vstd::arithmetic::div_mod::{
    lemma_fundamental_div_mod,
    lemma_fundamental_div_mod_converse,
    lemma_mod_multiples_basic,
    lemma_mod_multiples_vanish,
    lemma_div_pos_is_pos,
};

/// The characters of `s` other than `c`, in order.
pub open spec fn without_char(s: Seq<char>, c: char) -> Seq<char>
    decreases s.len(),
{
    if s.len() == 0 {
        Seq::empty()
    } else if s[0] == c {
        without_char(s.drop_first(), c)
    } else {
        seq![s[0]] + without_char(s.drop_first(), c)
    }
}

proof fn lemma_without_char_cons(x: char, y: Seq<char>, c: char)
    ensures
        without_char(seq![x] + y, c) == if x == c {
            without_char(y, c)
        } else {
            seq![x] + without_char(y, c)
        },
{
    let s = seq![x] + y;
    assert(s.drop_first() =~= y);
}

/// Law: grouping inserts nothing but the separator. Taking the separator
/// back out of a grouped run gives the run back, as long as the run itself
/// does not hold the separator character.
pub proof fn lemma_grouped_only_inserts(ds: Seq<char>, sep: char, groups: Seq<u8>)
    requires
        !ds.contains(sep),
    ensures
        without_char(grouped(ds, sep, groups), sep) == ds,
    decreases ds.len(),
{
    if ds.len() > 0 {
        let dt = ds.drop_first();
        assert(!dt.contains(sep)) by {
            if dt.contains(sep) {
                let i = choose|i: int| 0 <= i < dt.len() && dt[i] == sep;
                assert(ds[i + 1] == sep);
            }
        }
        lemma_grouped_only_inserts(dt, sep, groups);
        let g = grouped(dt, sep, groups);
        assert(ds[0] != sep) by {
            if ds[0] == sep {
                assert(ds.contains(sep));
            }
        }
        if is_sep_position(groups, ds.len() - 1) {
            assert(seq![ds[0], sep] + g =~= seq![ds[0]] + (seq![sep] + g));
            lemma_without_char_cons(ds[0], seq![sep] + g, sep);
            lemma_without_char_cons(sep, g, sep);
            assert(seq![ds[0]] + dt =~= ds);
        } else {
            lemma_without_char_cons(ds[0], g, sep);
            assert(seq![ds[0]] + dt =~= ds);
        }
    }
}

/// With a single group size `g`, the boundaries are exactly the positive
/// multiples of `g`.
pub proof fn lemma_uniform_sep_positions(g: u8, m: int)
    requires
        g >= 1,
    ensures
        is_sep_position(seq![g], m) <==> (m > 0 && m % (g as int) == 0),
{
    let groups = seq![g];
    let gi = g as int;
    lemma_cum_uniform(g);
    if is_sep_position(groups, m) {
        let j = choose|j: int| 1 <= j && cum_width(groups, j) == m;
        assert(cum_width(groups, j) == j * gi);
        lemma_mod_multiples_basic(j, gi);
    }
    if m > 0 && m % gi == 0 {
        lemma_fundamental_div_mod(m, gi);
        lemma_div_pos_is_pos(m, gi);
        let q = m / gi;
        assert(m == q * gi) by (nonlinear_arith)
            requires
                m == gi * q + m % gi,
                m % gi == 0,
        ;
        assert(q >= 1) by (nonlinear_arith)
            requires
                m == q * gi,
                m > 0,
                gi >= 1,
                q >= 0,
        ;
        assert(cum_width(groups, q) == q * gi);
        assert(is_sep_position(groups, m));
    }
}

/// With a single group size, the width of `j` groups is `j` times it.
proof fn lemma_cum_uniform(g: u8)
    requires
        g >= 1,
    ensures
        forall|j: int| 0 <= j ==> #[trigger] cum_width(seq![g], j) == j * (g as int),
{
    assert forall|j: int| 0 <= j implies #[trigger] cum_width(seq![g], j) == j * (g as int) by {
        lemma_cum_uniform_one(g, j);
    }
}

proof fn lemma_cum_uniform_one(g: u8, j: int)
    requires
        g >= 1,
        0 <= j,
    ensures
        cum_width(seq![g], j) == j * (g as int),
    decreases j,
{
    let gi = g as int;
    if j == 0 {
        assert(j * gi == 0) by (nonlinear_arith)
            requires
                j == 0,
        ;
    } else {
        lemma_cum_uniform_one(g, j - 1);
        assert((j - 1) * gi + gi == j * gi) by (nonlinear_arith);
    }
}

/// Law: a digit run no longer than the first group size comes through
/// grouping unchanged — in particular a run that exactly fills one group
/// gets no separator at all.
pub proof fn lemma_short_run_unchanged(ds: Seq<char>, sep: char, groups: Seq<u8>)
    requires
        positive_groups(groups),
        groups.len() >= 1,
        ds.len() <= groups[0],
    ensures
        grouped(ds, sep, groups) == ds,
    decreases ds.len(),
{
    if ds.len() > 0 {
        let m = ds.len() - 1;
        assert(!is_sep_position(groups, m)) by {
            if is_sep_position(groups, m) {
                let j = choose|j: int| 1 <= j && cum_width(groups, j) == m;
                lemma_cum_width_mono(groups, 1, j);
                assert(cum_width(groups, 0) == 0);
                assert(cum_width(groups, 1) == group_width(groups, 0));
            }
        }
        lemma_short_run_unchanged(ds.drop_first(), sep, groups);
        assert(seq![ds[0]] + ds.drop_first() =~= ds);
    } else {
        assert(grouped(ds, sep, groups) =~= ds);
    }
}

/// A string whose digit run is empty is left exactly as it stands.
proof fn lemma_empty_run(s: Seq<char>, sep: char, groups: Seq<u8>, digits: Seq<char>)
    requires
        span_end(s, digits) == span_start(s, digits),
    ensures
        separated(s, sep, groups, digits) == s,
{
    let a = span_start(s, digits);
    crate::model::lemma_span_start_bounds(s, digits);
    assert(s.subrange(a, a) =~= Seq::<char>::empty());
    assert(grouped(Seq::empty(), sep, groups) == Seq::<char>::empty());
    assert(s.take(a) + Seq::<char>::empty() + s.skip(a) =~= s);
}

/// Law: an input without a single digit character comes back unchanged —
/// in particular the empty input does.
pub proof fn lemma_no_digits_unchanged(s: Seq<char>, sep: char, groups: Seq<u8>, digits: Seq<char>)
    requires
        forall|i: int| 0 <= i < s.len() ==> !digits.contains(#[trigger] s[i]),
    ensures
        separated(s, sep, groups, digits) == s,
{
    lemma_span_start_at(s, digits, s.len() as int);
    lemma_span_end_at(s, digits, s.len() as int);
    lemma_empty_run(s, sep, groups, digits);
}

/// Law: with a single group size `g`, grouping peels exactly `g` digits off
/// the right of the run behind a separator, and a run of at most `g` digits
/// stays whole — so, read from the right, every group has exactly `g`
/// digits and the leftmost has between 1 and `g`.
pub proof fn lemma_rightmost_group(ds: Seq<char>, sep: char, g: u8)
    requires
        g >= 1,
    ensures
        ds.len() <= g ==> grouped(ds, sep, seq![g]) == ds,
        ds.len() > g ==> grouped(ds, sep, seq![g]) == grouped(ds.take(ds.len() - g), sep, seq![g])
            + seq![sep] + ds.skip(ds.len() - g),
    decreases ds.len(),
{
    let groups = seq![g];
    let gi = g as int;
    let n = ds.len() as int;
    if n <= gi {
        lemma_short_run_unchanged(ds, sep, groups);
    } else {
        let dt = ds.drop_first();
        lemma_rightmost_group(dt, sep, g);
        lemma_uniform_sep_positions(g, n - 1);
        if n - 1 == gi {
            assert((n - 1) % gi == 0) by (nonlinear_arith)
                requires
                    n - 1 == gi,
                    gi >= 1,
            ;
            assert(is_sep_position(groups, n - 1));
            assert(grouped(ds, sep, groups) == seq![ds[0], sep] + grouped(dt, sep, groups));
            let head = ds.take(n - gi);
            assert(head.len() == 1);
            lemma_short_run_unchanged(head, sep, groups);
            assert(head =~= seq![ds[0]]);
            assert(ds.skip(n - gi) =~= dt);
            assert(seq![ds[0], sep] + dt =~= head + seq![sep] + ds.skip(n - gi));
        } else {
            // n - 1 > gi: the flag at the head is the same with or without
            // the rightmost group of g digits
            lemma_uniform_sep_positions(g, n - 1 - gi);
            lemma_mod_multiples_vanish(-1, n - 1, gi);
            assert(gi * (-1) + (n - 1) == n - 1 - gi);
            assert(is_sep_position(groups, n - 1) == is_sep_position(groups, n - 1 - gi));
            let head = ds.take(n - gi);
            let x = grouped(dt.take(n - 1 - gi), sep, groups);
            let y = dt.skip(n - 1 - gi);
            assert(head.drop_first() =~= dt.take(n - 1 - gi));
            assert(ds.skip(n - gi) =~= y);
            assert(head[0] == ds[0]);
            // both sides unfold around the head digit
            if is_sep_position(groups, n - 1) {
                assert(grouped(ds, sep, groups) == seq![ds[0], sep] + (x + seq![sep] + y));
                assert(grouped(head, sep, groups) == seq![ds[0], sep] + x);
                assert(seq![ds[0], sep] + (x + seq![sep] + y) =~= (seq![ds[0], sep] + x)
                    + seq![sep] + y);
            } else {
                assert(grouped(ds, sep, groups) == seq![ds[0]] + (x + seq![sep] + y));
                assert(grouped(head, sep, groups) == seq![ds[0]] + x);
                assert(seq![ds[0]] + (x + seq![sep] + y) =~= (seq![ds[0]] + x) + seq![sep] + y);
            }
        }
    }
}

/// Law: beyond the digits covered by the explicit group list, the last
/// listed size repeats without end: a boundary stands there exactly at
/// every further multiple of it.
pub proof fn lemma_repeating_tail(groups: Seq<u8>, m: int)
    requires
        positive_groups(groups),
        groups.len() >= 1,
        m >= cum_width(groups, groups.len() as int),
    ensures
        is_sep_position(groups, m) <==> (m - cum_width(groups, groups.len() as int)) % group_width(
            groups,
            groups.len() - 1,
        ) == 0,
{
    let glen = groups.len() as int;
    let e = cum_width(groups, glen);
    let last = group_width(groups, glen - 1);
    lemma_cum_width_mono(groups, 0, glen);
    assert(cum_width(groups, 0) == 0);
    if is_sep_position(groups, m) {
        let j = choose|j: int| 1 <= j && cum_width(groups, j) == m;
        if j < glen {
            lemma_cum_width_mono(groups, j, glen);
            assert(false);
        }
        lemma_cum_width_beyond(groups, glen, j - glen);
        assert(m - e == (j - glen) * last);
        lemma_mod_multiples_basic(j - glen, last);
    }
    if (m - e) % last == 0 {
        lemma_fundamental_div_mod(m - e, last);
        lemma_div_pos_is_pos(m - e, last);
        let q = (m - e) / last;
        assert(m - e == q * last) by (nonlinear_arith)
            requires
                m - e == last * q + (m - e) % last,
                (m - e) % last == 0,
        ;
        lemma_cum_width_beyond(groups, glen, q);
        assert(cum_width(groups, glen + q) == m);
        assert(is_sep_position(groups, m));
    }
}

/// Law: separating moves nothing around the digit run. The output locates
/// the same prefix as the input did, it is at least as long as the input,
/// and the input's suffix stands unchanged at the output's end — given that
/// the separator itself is not a digit.
pub proof fn lemma_relocate(s: Seq<char>, sep: char, groups: Seq<u8>, digits: Seq<char>)
    requires
        !digits.contains(sep),
    ensures
        ({
            let out = separated(s, sep, groups, digits);
            &&& out.len() >= s.len()
            &&& span_start(out, digits) == span_start(s, digits)
            &&& out.take(span_start(s, digits)) == s.take(span_start(s, digits))
            &&& out.skip(out.len() - (s.len() - span_end(s, digits))) == s.skip(
                span_end(s, digits),
            )
        }),
{
    let out = separated(s, sep, groups, digits);
    let a = span_start(s, digits);
    let b = span_end(s, digits);
    crate::model::lemma_span_start_bounds(s, digits);
    crate::model::lemma_digit_run_len_bounds(s.skip(a), digits);
    assert(a <= b <= s.len());
    if a == b {
        lemma_empty_run(s, sep, groups, digits);
    } else {
        let run = s.subrange(a, b);
        let g = grouped(run, sep, groups);
        lemma_grouped_len(run, sep, groups);
        assert(out.len() == a + g.len() + (s.len() - b));
        assert(out.len() >= s.len());
        assert forall|i: int| 0 <= i < a implies out[i] == s[i] by {
            assert(out[i] == s.take(a)[i]);
        }
        assert(out[a] == g[0]);
        assert(g[0] == run[0]);
        assert(run[0] == s[a]);
        lemma_span_start_at(out, digits, a);
        assert(out.take(a) =~= s.take(a));
        assert forall|i: int| 0 <= i < s.len() - b implies out[out.len() - (s.len() - b)
            + i] == s.skip(b)[i] by {
            assert(out[a + g.len() + i] == s.skip(b)[i]);
        }
        assert(out.skip(out.len() - (s.len() - b)) =~= s.skip(b));
    }
}

/// Every decimal digit character is in the decimal digit set.
proof fn lemma_digit_char_decimal(d: int)
    requires
        0 <= d <= 9,
    ensures
        ascii_decimal_chars().contains(digit_char(d)),
{
    assert(ascii_decimal_chars()[d] == digit_char(d));
}

/// The decimal rendering of a non-negative integer is never empty and
/// holds decimal digit characters only.
pub proof fn lemma_dec_digits_decimal(n: int)
    requires
        n >= 0,
    ensures
        dec_digits(n).len() >= 1,
        forall|i: int|
            0 <= i < dec_digits(n).len() ==> ascii_decimal_chars().contains(
                #[trigger] dec_digits(n)[i],
            ),
    decreases n,
{
    if n <= 9 {
        lemma_digit_char_decimal(n);
    } else {
        lemma_dec_digits_decimal(n / 10);
        lemma_digit_char_decimal(n % 10);
        assert forall|i: int| 0 <= i < dec_digits(n).len() implies ascii_decimal_chars().contains(
            #[trigger] dec_digits(n)[i],
        ) by {
            if i < dec_digits(n / 10).len() {
                assert(dec_digits(n)[i] == dec_digits(n / 10)[i]);
            } else {
                assert(dec_digits(n)[i] == digit_char(n % 10));
            }
        }
    }
}

/// A string of digit characters alone is located as one whole run, so
/// separating it is exactly grouping it.
pub proof fn lemma_all_digits_span(s: Seq<char>, sep: char, groups: Seq<u8>, digits: Seq<char>)
    requires
        forall|i: int| 0 <= i < s.len() ==> digits.contains(#[trigger] s[i]),
    ensures
        span_start(s, digits) == 0,
        span_end(s, digits) == s.len(),
        separated(s, sep, groups, digits) == grouped(s, sep, groups),
{
    lemma_span_start_at(s, digits, 0);
    lemma_span_end_at(s, digits, s.len() as int);
    assert(s.subrange(0, s.len() as int) =~= s);
    assert(s.take(0) + grouped(s, sep, groups) + s.skip(s.len() as int) =~= grouped(
        s,
        sep,
        groups,
    ));
}

/// The length of the leftmost group of a run of `n` digits under a single
/// group size `g`: the remainder of `n` by `g`, except that a run that
/// fills its groups exactly has a full leftmost group.
pub open spec fn leading_len(n: int, g: int) -> int {
    if n % g == 0 {
        g
    } else {
        n % g
    }
}

/// With a single group size `g`, a run longer than `g` starts with its
/// leftmost group, then a separator, then the grouping of the rest.
pub proof fn lemma_leading_group(ds: Seq<char>, sep: char, g: u8)
    requires
        g >= 1,
        ds.len() > g,
    ensures
        1 <= leading_len(ds.len() as int, g as int) <= g,
        grouped(ds, sep, seq![g]) == ds.take(leading_len(ds.len() as int, g as int)) + seq![sep]
            + grouped(ds.skip(leading_len(ds.len() as int, g as int)), sep, seq![g]),
    decreases ds.len(),
{
    let groups = seq![g];
    let gi = g as int;
    let n = ds.len() as int;
    lemma_fundamental_div_mod(n, gi);
    let l = leading_len(n, gi);
    lemma_uniform_sep_positions(g, n - 1);
    let dt = ds.drop_first();
    let q = n / gi;
    let r = n % gi;
    // the remainder of n - 1 by g, from the remainder of n
    if r == 0 {
        assert(n - 1 == (q - 1) * gi + (gi - 1)) by (nonlinear_arith)
            requires
                n == gi * q + r,
                r == 0,
        ;
        lemma_fundamental_div_mod_converse(n - 1, gi, q - 1, gi - 1);
    } else {
        assert(n - 1 == q * gi + (r - 1)) by (nonlinear_arith)
            requires
                n == gi * q + r,
        ;
        lemma_fundamental_div_mod_converse(n - 1, gi, q, r - 1);
    }
    if l == 1 {
        assert((n - 1) % gi == 0);
        assert(is_sep_position(groups, n - 1));
        assert(grouped(ds, sep, groups) == seq![ds[0], sep] + grouped(dt, sep, groups));
        assert(ds.take(1) =~= seq![ds[0]]);
        assert(ds.skip(1) =~= dt);
        assert(seq![ds[0], sep] + grouped(dt, sep, groups) =~= ds.take(1) + seq![sep] + grouped(
            ds.skip(1),
            sep,
            groups,
        ));
    } else {
        // the head digit does not close a group
        assert((n - 1) % gi == l - 1);
        assert(!is_sep_position(groups, n - 1));
        assert(grouped(ds, sep, groups) == seq![ds[0]] + grouped(dt, sep, groups));
        assert(n - 1 > gi) by (nonlinear_arith)
            requires
                n == gi * q + r,
                0 <= r < gi,
                n > gi,
                gi >= 1,
                r == 0 ==> gi >= 2,
                r != 0 ==> r >= 2,
        ;
        lemma_leading_group(dt, sep, g);
        assert(leading_len(n - 1, gi) == l - 1);
        let x = grouped(dt.skip(l - 1), sep, groups);
        assert(dt.take(l - 1) =~= ds.take(l).drop_first());
        assert(dt.skip(l - 1) =~= ds.skip(l));
        assert(ds.take(l) =~= seq![ds[0]] + dt.take(l - 1));
        assert(seq![ds[0]] + (dt.take(l - 1) + seq![sep] + x) =~= ds.take(l) + seq![sep] + x);
    }
}

/// Law: with a single group size, separating is idempotent. A second pass
/// finds the digit run of the output stopped short by the first inserted
/// separator — or unchanged when none was inserted — and that leftover
/// leftmost group never exceeds the group size, so nothing more happens.
pub proof fn lemma_uniform_idempotent(s: Seq<char>, sep: char, g: u8, digits: Seq<char>)
    requires
        g >= 1,
        !digits.contains(sep),
    ensures
        ({
            let out = separated(s, sep, seq![g], digits);
            separated(out, sep, seq![g], digits) == out
        }),
{
    let groups = seq![g];
    let out = separated(s, sep, groups, digits);
    let a = span_start(s, digits);
    let b = span_end(s, digits);
    crate::model::lemma_span_start_bounds(s, digits);
    crate::model::lemma_digit_run_len_bounds(s.skip(a), digits);
    lemma_relocate(s, sep, groups, digits);
    if a == b {
        lemma_empty_run(s, sep, groups, digits);
        lemma_empty_run(out, sep, groups, digits);
    } else {
        let run = s.subrange(a, b);
        let n = b - a;
        let gr = grouped(run, sep, groups);
        assert(forall|i: int| 0 <= i < n ==> digits.contains(#[trigger] run[i])) by {
            assert(forall|i: int| 0 <= i < n ==> run[i] == #[trigger] s.skip(a)[i]);
        }
        let l = if n <= g {
            n
        } else {
            leading_len(n, g as int)
        };
        if n <= g as int {
            lemma_short_run_unchanged(run, sep, groups);
        } else {
            lemma_leading_group(run, sep, g);
        }
        // the run the second pass sees: l digits, then a separator or the
        // input's own suffix
        assert forall|i: int| a <= i < a + l implies digits.contains(#[trigger] out[i]) by {
            assert(out[i] == gr[i - a]);
            if n <= g as int {
                assert(gr[i - a] == run[i - a]);
            } else {
                assert(gr[i - a] == run.take(l)[i - a]);
            }
        }
        if a + l < out.len() {
            if n <= g as int {
                // the digit run of `s` ended at `b` for a reason
                assert(out[a + l] == s.skip(b)[0]);
                assert(s.skip(b)[0] == s.skip(a)[n]);
            } else {
                assert(out[a + l] == gr[l]);
                assert(gr[l] == (run.take(l) + seq![sep] + grouped(run.skip(l), sep, groups))[l]);
            }
        }
        lemma_span_end_at(out, digits, a + l);
        assert(span_start(out, digits) == a);
        assert(span_end(out, digits) == a + l);
        let run2 = out.subrange(a, a + l);
        assert forall|i: int| 0 <= i < l implies run2[i] == run[i] by {
            assert(run2[i] == gr[i]);
            if n <= g as int {
                assert(gr[i] == run[i]);
            } else {
                assert(gr[i] == run.take(l)[i]);
            }
        }
        assert(run2 =~= run.take(l));
        lemma_short_run_unchanged(run2, sep, groups);
        assert(out.take(a) + run2 + out.skip(a + l) =~= out);
    }
}

/// Law: formatting a non-negative integer with the comma policy touches
/// nothing but its digits, leaves a run of at most three digits whole, puts
/// a comma before the last three digits of a longer run, and inserts
/// nothing but commas.
pub proof fn lemma_commas_every_three(n: int)
    requires
        n >= 0,
    ensures
        ({
            let ds = dec_digits(n);
            let out = separated(ds, ',', seq![3u8], ascii_decimal_chars());
            &&& out == grouped(ds, ',', seq![3u8])
            &&& (ds.len() <= 3 ==> out == ds)
            &&& (ds.len() > 3 ==> out == grouped(ds.take(ds.len() - 3), ',', seq![3u8])
                + seq![','] + ds.skip(ds.len() - 3))
            &&& without_char(out, ',') == ds
        }),
{
    let ds = dec_digits(n);
    lemma_dec_digits_decimal(n);
    assert(!ds.contains(',')) by {
        if ds.contains(',') {
            let i = choose|i: int| 0 <= i < ds.len() && ds[i] == ',';
            assert(ascii_decimal_chars().contains(','));
            let k = choose|k: int|
                0 <= k < ascii_decimal_chars().len() && ascii_decimal_chars()[k] == ',';
            assert(false);
        }
    }
    lemma_all_digits_span(ds, ',', seq![3u8], ascii_decimal_chars());
    lemma_rightmost_group(ds, ',', 3u8);
    lemma_grouped_only_inserts(ds, ',', seq![3u8]);
}

} // verus!
