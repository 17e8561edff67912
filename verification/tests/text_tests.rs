use clan_report::text::append_decimal;
use clan_report::text::append_padded;
use clan_report::text::append_spaces;
use clan_report::text::decimal_string;

#[test]
fn decimal_of_zero() {
    assert_eq!(decimal_string(0), "0");
}

#[test]
fn decimal_of_one_digit() {
    assert_eq!(decimal_string(7), "7");
    assert_eq!(decimal_string(9), "9");
}

#[test]
fn decimal_of_several_digits() {
    assert_eq!(decimal_string(10), "10");
    assert_eq!(decimal_string(1234567890), "1234567890");
    assert_eq!(decimal_string(4294967295), "4294967295");
}

#[test]
fn decimal_of_the_largest_number() {
    assert_eq!(decimal_string(u64::MAX), "18446744073709551615");
}

#[test]
fn decimal_agrees_with_the_language() {
    let mut n: u64 = 0;
    while n < 5000 {
        assert_eq!(decimal_string(n), n.to_string());
        assert_eq!(decimal_string(u64::MAX - n), (u64::MAX - n).to_string());
        n += 1;
    }
}

#[test]
fn append_decimal_writes_behind_what_is_there() {
    let mut out = String::from("page=");
    append_decimal(&mut out, 205);
    assert_eq!(out, "page=205");
}

#[test]
fn append_spaces_writes_that_many() {
    let mut out = String::from("a");
    append_spaces(&mut out, 3);
    assert_eq!(out, "a   ");
    append_spaces(&mut out, 0);
    assert_eq!(out, "a   ");
}

#[test]
fn append_padded_fills_a_short_piece() {
    let mut out = String::new();
    append_padded(&mut out, "7", 2);
    assert_eq!(out, " 7");
    append_padded(&mut out, "", 2);
    assert_eq!(out, " 7  ");
}

#[test]
fn append_padded_leaves_a_fitting_piece() {
    let mut out = String::new();
    append_padded(&mut out, "42", 2);
    assert_eq!(out, "42");
}

#[test]
fn append_padded_leaves_a_long_piece() {
    let mut out = String::new();
    append_padded(&mut out, "123", 2);
    assert_eq!(out, "123");
}

#[test]
fn append_padded_counts_characters() {
    let mut out = String::new();
    append_padded(&mut out, "ß", 2);
    assert_eq!(out, " ß");
}
