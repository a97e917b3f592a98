use r2d2p2::text::{
    chars_of, contains, decimal_string, find_char, is_text, parse_u128, replace, same_chars,
    signed_decimal_chars, split, string_of, trim,
};

fn v(s: &str) -> Vec<char> {
    s.chars().collect()
}

#[test]
fn decimal_numbers() {
    assert_eq!(decimal_string(0), "0");
    assert_eq!(decimal_string(1733697225084), "1733697225084");
    assert_eq!(decimal_string(u128::MAX), "340282366920938463463374607431768211455");
    assert_eq!(parse_u128(&v("0")), Some(0));
    assert_eq!(parse_u128(&v("007")), Some(7));
    assert_eq!(parse_u128(&v("+5")), Some(5));
    assert_eq!(parse_u128(&v("340282366920938463463374607431768211455")), Some(u128::MAX));
    assert_eq!(parse_u128(&v("340282366920938463463374607431768211456")), None);
    assert_eq!(parse_u128(&v("")), None);
    assert_eq!(parse_u128(&v("+")), None);
    assert_eq!(parse_u128(&v("-1")), None);
    assert_eq!(parse_u128(&v("12a")), None);
    assert_eq!(parse_u128(&v(" 1")), None);
    assert_eq!(string_of(&signed_decimal_chars(-45)), "-45");
    assert_eq!(string_of(&signed_decimal_chars(i64::MIN)), "-9223372036854775808");
    assert_eq!(string_of(&signed_decimal_chars(45)), "45");
    for k in [0u128, 9, 10, 99, 100, 12345678901234567890] {
        assert_eq!(parse_u128(&chars_of(&decimal_string(k))), Some(k));
    }
}

#[test]
fn splitting_and_searching() {
    let parts = |s: &str, sep: &str| -> Vec<String> {
        split(&v(s), &v(sep)).iter().map(string_of).collect()
    };
    assert_eq!(parts("LIST::ONE::5", "::"), vec!["LIST", "ONE", "5"]);
    assert_eq!(parts("a::", "::"), vec!["a", ""]);
    assert_eq!(parts("", "::"), vec![""]);
    assert_eq!(parts(":::", "::"), vec!["", ":"]);
    assert_eq!(parts("a,b,,c", ","), vec!["a", "b", "", "c"]);
    assert_eq!(parts("abc", "abcd"), vec!["abc"]);
    assert!(contains(&v("LIST::ALL::HIDE"), &v("HIDE")));
    assert!(!contains(&v("LIST::ALL"), &v("HIDE")));
    assert!(contains(&v("abc"), &v("")));
    assert!(!contains(&v("ab"), &v("abc")));
    assert_eq!(string_of(&replace(&v("2024-12-07%2011:15:10"), &v("%20"), &v(" "))), "2024-12-07 11:15:10");
    assert_eq!(string_of(&replace(&v("aaa"), &v("aa"), &v("b"))), "ba");
    assert_eq!(string_of(&replace(&v("abc"), &v("x"), &v("y"))), "abc");
    assert_eq!(find_char(&v("a=b=c"), '='), 1);
    assert_eq!(find_char(&v("abc"), '='), 3);
}

#[test]
fn trimming_and_comparing() {
    assert_eq!(string_of(&trim(&v("  a b \t\r\n"))), "a b");
    assert_eq!(string_of(&trim(&v("\u{a0}\u{3000}x\u{2003}"))), "x");
    assert_eq!(string_of(&trim(&v("   "))), "");
    assert_eq!(string_of(&trim(&v(""))), "");
    assert_eq!(string_of(&trim(&v("x"))), "x");
    assert!(same_chars(&v("abc"), &v("abc")));
    assert!(!same_chars(&v("abc"), &v("abd")));
    assert!(!same_chars(&v("abc"), &v("ab")));
    assert!(is_text(&v("ALL"), "ALL"));
    assert!(!is_text(&v("ALL "), "ALL"));
    assert_eq!(chars_of("h\u{e9}"), vec!['h', '\u{e9}']);
    assert_eq!(string_of(&vec!['o', 'k']), "ok");
}
