use thousands::SeparatorPolicy;
use thousands::digits;
use thousands::helpers::{SeparatorIterator, ceil_div_mod, separate_str_iter};
use thousands::{find_span, insert_separator_rev, separate_text};

fn make_policy(groups: Vec<u8>) -> SeparatorPolicy {
    SeparatorPolicy {
        separator: ',',
        groups,
        digits: digits::ascii_decimal(),
    }
}

/// Interleaves the characters of `input` with commas wherever the grouping
/// engine asks for one.
fn group_string(groups: Vec<u8>, input: &str) -> String {
    let policy = make_policy(groups);
    let mut out = String::new();
    for (c, comma_after) in separate_str_iter(&policy, input) {
        out.push(c);
        if comma_after {
            out.push(',');
        }
    }
    out
}

#[test]
fn grouping_by_ones() {
    assert_eq!(group_string(vec![1], ""), "");
    assert_eq!(group_string(vec![1], "1"), "1");
    assert_eq!(group_string(vec![1], "21"), "2,1");
    assert_eq!(group_string(vec![1], "321"), "3,2,1");
}

#[test]
fn grouping_by_twos() {
    assert_eq!(group_string(vec![2], "1"), "1");
    assert_eq!(group_string(vec![2], "21"), "21");
    assert_eq!(group_string(vec![2], "321"), "3,21");
    assert_eq!(group_string(vec![2], "4321"), "43,21");
    assert_eq!(group_string(vec![2], "54321"), "5,43,21");
    assert_eq!(group_string(vec![2], "987654321"), "9,87,65,43,21");
}

#[test]
fn grouping_by_threes() {
    assert_eq!(group_string(vec![3], "321"), "321");
    assert_eq!(group_string(vec![3], "4321"), "4,321");
    assert_eq!(group_string(vec![3], "7654321"), "7,654,321");
    assert_eq!(group_string(vec![3], "987654321"), "987,654,321");
}

#[test]
fn grouping_by_twos_then_three() {
    assert_eq!(group_string(vec![3, 2], "321"), "321");
    assert_eq!(group_string(vec![3, 2], "4321"), "4,321");
    assert_eq!(group_string(vec![3, 2], "654321"), "6,54,321");
    assert_eq!(group_string(vec![3, 2], "87654321"), "8,76,54,321");
}

#[test]
fn repeating_group_of_twenty_symbols() {
    assert_eq!(
        group_string(vec![1, 2, 3, 4, 5], "KJIHGFEDCBA987654321"),
        "KJIHG,FEDCB,A987,654,32,1"
    );
    assert_eq!(
        group_string(vec![1, 2, 3, 4, 5], "GFEDCBA987654321"),
        "G,FEDCB,A987,654,32,1"
    );
    assert_eq!(
        group_string(vec![1, 2, 3, 4, 5], "BA987654321"),
        "B,A987,654,32,1"
    );
    assert_eq!(
        group_string(vec![1, 2, 3, 4, 5], "A987654321"),
        "A987,654,32,1"
    );
    assert_eq!(group_string(vec![1, 2, 3, 4, 5], "7654321"), "7,654,32,1");
    assert_eq!(group_string(vec![1, 2, 3, 4, 5], "1"), "1");
    assert_eq!(group_string(vec![1, 2, 3, 4, 5], ""), "");
}

#[test]
fn iterator_yields_one_flag_per_digit() {
    let policy = make_policy(vec![3]);
    let mut it = SeparatorIterator::new(&policy, 4);
    assert_eq!(it.next(), Some(true));
    assert_eq!(it.next(), Some(false));
    assert_eq!(it.next(), Some(false));
    assert_eq!(it.next(), Some(false));
    assert_eq!(it.next(), None);
}

#[test]
fn iterator_on_zero_digits() {
    let policy = make_policy(vec![3]);
    let mut it = SeparatorIterator::new(&policy, 0);
    assert_eq!(it.next(), None);
}

#[test]
fn ceil_div_mod_values() {
    assert_eq!(ceil_div_mod(1, 3), (1, 1));
    assert_eq!(ceil_div_mod(3, 3), (1, 3));
    assert_eq!(ceil_div_mod(4, 3), (2, 1));
    assert_eq!(ceil_div_mod(10, 5), (2, 5));
    assert_eq!(ceil_div_mod(11, 5), (3, 1));
}

#[test]
fn find_span_splits_around_first_run() {
    let decimal = digits::ascii_decimal();
    assert_eq!(find_span("-1234.5", &decimal), ("-", "1234", ".5"));
    assert_eq!(find_span("abc", &decimal), ("abc", "", ""));
    assert_eq!(find_span("", &decimal), ("", "", ""));
    assert_eq!(find_span("12.34", &decimal), ("", "12", ".34"));
    assert_eq!(find_span("987", &decimal), ("", "987", ""));
}

#[test]
fn insert_separator_rev_reverses_grouping() {
    assert_eq!(insert_separator_rev("1234", ',', &[3]), "432,1");
    assert_eq!(insert_separator_rev("123", ',', &[3]), "321");
    assert_eq!(insert_separator_rev("", ',', &[3]), "");
}

#[test]
fn separate_text_keeps_surroundings() {
    let policy = make_policy(vec![3]);
    assert_eq!(separate_text("pay 1000000 now", &policy), "pay 1,000,000 now");
}
