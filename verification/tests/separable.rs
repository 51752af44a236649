use thousands::Separable;
use thousands::SeparatorPolicy;
use thousands::digits;
use thousands::policies;

#[test]
fn integer_thousands_commas() {
    assert_eq!(12345.separate_with_commas(), "12,345");
}

#[test]
fn three_two_two_two() {
    let policy = SeparatorPolicy {
        separator: ',',
        groups: vec![3, 2],
        digits: digits::ascii_decimal(),
    };

    assert_eq!(1234567890.separate_by_policy(&policy), "1,23,45,67,890");
}

#[test]
fn minus_sign_and_decimal_point() {
    let rendered = format!("{}", -1234.5);
    assert_eq!(rendered.separate_with_commas(), "-1,234.5");
}

#[test]
fn hex_four() {
    let policy = policies::hex_four();
    assert_eq!("deadbeef".separate_by_policy(&policy), "dead beef");
}

#[test]
fn spaces_and_dots() {
    assert_eq!(12345.separate_with_spaces(), "12 345");
    assert_eq!(12345.separate_with_dots(), "12.345");
}

#[test]
fn exact_group_gets_no_separator() {
    assert_eq!(123.separate_with_commas(), "123");
    assert_eq!("123".separate_with_commas(), "123");
}

#[test]
fn no_digits_come_back_unchanged() {
    assert_eq!("".separate_with_commas(), "");
    assert_eq!("abc".separate_with_commas(), "abc");
}

#[test]
fn zero_and_single_digit() {
    assert_eq!(0.separate_with_commas(), "0");
    assert_eq!(7u8.separate_with_commas(), "7");
}

#[test]
fn negative_integers() {
    assert_eq!((-12345).separate_with_commas(), "-12,345");
    assert_eq!((-100i16).separate_with_commas(), "-100");
}

#[test]
fn extreme_integers() {
    assert_eq!(
        u64::MAX.separate_with_commas(),
        "18,446,744,073,709,551,615"
    );
    assert_eq!(
        i64::MIN.separate_with_commas(),
        "-9,223,372,036,854,775,808"
    );
    assert_eq!(u32::MAX.separate_with_commas(), "4,294,967,295");
    assert_eq!(i32::MIN.separate_with_commas(), "-2,147,483,648");
}

#[test]
fn owned_string_input() {
    let text = String::from("x10000y");
    assert_eq!(text.separate_with_commas(), "x10,000y");
}

#[test]
fn only_first_run_is_grouped() {
    assert_eq!("12345 and 67890".separate_with_commas(), "12,345 and 67890");
}

#[test]
fn multibyte_digits_and_separator() {
    // Arabic-Indic digits grouped in pairs with an Arabic comma: every
    // character here takes more than one byte in UTF-8.
    let policy = SeparatorPolicy {
        separator: '\u{060C}',
        groups: vec![2],
        digits: vec![
            '\u{0660}', '\u{0661}', '\u{0662}', '\u{0663}', '\u{0664}', '\u{0665}', '\u{0666}',
            '\u{0667}', '\u{0668}', '\u{0669}',
        ],
    };
    let input = "\u{0661}\u{0662}\u{0663}\u{0664}\u{0665}";
    let expected = "\u{0661}\u{060C}\u{0662}\u{0663}\u{060C}\u{0664}\u{0665}";
    assert_eq!(input.separate_by_policy(&policy), expected);
}

#[test]
fn separating_twice_with_commas_is_idempotent() {
    let once = 1234567.separate_with_commas();
    assert_eq!(once, "1,234,567");
    assert_eq!(once.separate_with_commas(), "1,234,567");
}
