use donner::text::{
    comes_before, decimal_text, join2, join3, parse_i32, read_integer, same_text,
    signed_decimal_text,
};

#[test]
fn numerals_have_no_leading_zeros() {
    assert_eq!(decimal_text(0), "0");
    assert_eq!(decimal_text(1_234_567_890), "1234567890");
    assert_eq!(decimal_text(u64::MAX as u128 + 1), "18446744073709551616");
    assert_eq!(signed_decimal_text(-2147483648), "-2147483648");
    assert_eq!(signed_decimal_text(42), "42");
}

#[test]
fn numerals_read_back() {
    let numbers: Vec<i32> = vec![0, 7, -7, 123, i32::MAX, i32::MIN];
    for n in numbers {
        assert_eq!(parse_i32(&signed_decimal_text(n)), Some(n));
    }
}

#[test]
fn integers_are_read_as_std_reads_them() {
    let texts = vec![
        "", "+", "-", "+5", "-5", "007", "2147483647", "2147483648", "-2147483648", "-2147483649",
        " 1", "1 ", "1_0", "0x1", "--1", "+-1", "-0", "99999999999999999999", "\u{661}",
    ];
    for text in texts {
        assert_eq!(parse_i32(text), text.parse::<i32>().ok(), "{}", text);
    }
}

#[test]
fn texts_are_joined_in_order() {
    assert_eq!(join2("a", "b"), "ab");
    assert_eq!(join3("a", "", "c"), "ac");
}

#[test]
fn texts_are_ordered_as_std_orders_them() {
    let texts = vec!["", "a", "aa", "ab", "b", "B", "10", "2", "\u{e9}", "z", "\u{10000}", "\u{ffff}"];
    for a in texts.iter() {
        for b in texts.iter() {
            assert_eq!(comes_before(a, b), a < b, "{} {}", a, b);
            assert_eq!(same_text(a, b), a == b);
        }
    }
}

#[test]
fn integers_are_read_by_sign_and_size() {
    assert_eq!(read_integer("0"), Some((false, Some(0))));
    assert_eq!(read_integer("-0"), Some((true, Some(0))));
    assert_eq!(read_integer("+17"), Some((false, Some(17))));
    let most = u128::MAX.to_string();
    assert_eq!(read_integer(&most), Some((false, Some(u128::MAX))));
    assert_eq!(read_integer(&format!("-{}", most)), Some((true, Some(u128::MAX))));
    assert_eq!(read_integer("340282366920938463463374607431768211456"), Some((false, None)));
    assert_eq!(read_integer("-999999999999999999999999999999999999999"), Some((true, None)));
    for other in ["", "-", "+", "1.0", "1e3", "--1", " 1"] {
        assert_eq!(read_integer(other), None);
    }
}
