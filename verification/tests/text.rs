use kconfig_compare::text::{
    compare, find_in_range, is_whitespace, push_decimal, range_ends_with, range_starts_with,
    same_text, to_chars, trim_range, Position,
};

fn expected_position(a: &str, b: &str) -> Position {
    if a < b {
        Position::Before
    } else if a == b {
        Position::Same
    } else {
        Position::After
    }
}

fn decimal_of(n: u64) -> String {
    let mut out = String::new();
    push_decimal(&mut out, n);
    out
}

fn trimmed_by_range(s: &str) -> String {
    let chars = to_chars(s);
    let (lo, hi) = trim_range(&chars, 0, chars.len());
    chars[lo..hi].iter().collect()
}

#[test]
fn white_space_is_what_the_standard_library_calls_white_space() {
    let mut code: u32 = 0;
    while code <= 0x10FFFF {
        if let Some(c) = char::from_u32(code) {
            assert_eq!(is_whitespace(c), c.is_whitespace(), "code point {:#x}", code);
        }
        code += 1;
    }
}

#[test]
fn white_space_examples() {
    assert!(is_whitespace(' '));
    assert!(is_whitespace('\t'));
    assert!(is_whitespace('\n'));
    assert!(is_whitespace('\r'));
    assert!(is_whitespace('\u{A0}'));
    assert!(is_whitespace('\u{3000}'));
    assert!(!is_whitespace('C'));
    assert!(!is_whitespace('#'));
    assert!(!is_whitespace('='));
    assert!(!is_whitespace('\u{200B}'));
}

#[test]
fn to_chars_keeps_every_character() {
    assert_eq!(to_chars(""), Vec::<char>::new());
    assert_eq!(to_chars("a=b"), vec!['a', '=', 'b']);
    assert_eq!(to_chars("é x"), vec!['é', ' ', 'x']);
}

#[test]
fn trim_range_agrees_with_trim() {
    let samples = [
        "",
        " ",
        "   \t\n",
        "abc",
        "  abc",
        "abc  ",
        " \t abc def \r\n",
        "\u{A0}x\u{3000}",
        " é ",
        "a",
    ];
    for sample in samples {
        assert_eq!(trimmed_by_range(sample), sample.trim());
    }
}

#[test]
fn trim_range_stays_inside_the_range() {
    let chars = to_chars("ab  cd  ef");
    assert_eq!(trim_range(&chars, 2, 8), (4, 6));
    assert_eq!(trim_range(&chars, 2, 4), (4, 4));
    assert_eq!(trim_range(&chars, 0, 10), (0, 10));
    assert_eq!(trim_range(&chars, 3, 3), (3, 3));
}

#[test]
fn range_starts_with_compares_the_first_characters() {
    let chars = to_chars("  CONFIG_A=1");
    assert!(range_starts_with(&chars, 2, 12, "CONFIG"));
    assert!(!range_starts_with(&chars, 0, 12, "CONFIG"));
    assert!(!range_starts_with(&chars, 2, 7, "CONFIG"));
    assert!(range_starts_with(&chars, 2, 8, "CONFIG"));
    assert!(range_starts_with(&chars, 5, 5, ""));
    assert!(!range_starts_with(&chars, 2, 12, "CONFIH"));
}

#[test]
fn range_ends_with_compares_the_last_characters() {
    let chars = to_chars("CONFIG_A is not set  ");
    assert!(range_ends_with(&chars, 0, 19, "is not set"));
    assert!(!range_ends_with(&chars, 0, 21, "is not set"));
    assert!(!range_ends_with(&chars, 12, 19, "is not set"));
    assert!(range_ends_with(&chars, 9, 19, "is not set"));
    assert!(range_ends_with(&chars, 3, 3, ""));
    assert!(!range_ends_with(&chars, 0, 19, "is not sat"));
}

#[test]
fn find_in_range_gives_the_first_occurrence() {
    let chars = to_chars("a=b=c");
    assert_eq!(find_in_range(&chars, 0, 5, '='), Some(1));
    assert_eq!(find_in_range(&chars, 2, 5, '='), Some(3));
    assert_eq!(find_in_range(&chars, 4, 5, '='), None);
    assert_eq!(find_in_range(&chars, 0, 1, '='), None);
    assert_eq!(find_in_range(&chars, 0, 0, 'a'), None);
    assert_eq!(find_in_range(&chars, 0, 5, 'a'), Some(0));
}

#[test]
fn compare_orders_by_code_point() {
    assert_eq!(compare("", ""), Position::Same);
    assert_eq!(compare("", "a"), Position::Before);
    assert_eq!(compare("a", ""), Position::After);
    assert_eq!(compare("CONFIG_A", "CONFIG_B"), Position::Before);
    assert_eq!(compare("CONFIG_B", "CONFIG_A"), Position::After);
    assert_eq!(compare("CONFIG_A", "CONFIG_A"), Position::Same);
    assert_eq!(compare("CONFIG_A", "CONFIG_AB"), Position::Before);
    assert_eq!(compare("CONFIG_Z", "CONFIG_a"), Position::Before);
    assert_eq!(compare("CONFIG_10", "CONFIG_9"), Position::Before);
}

#[test]
fn compare_agrees_with_the_order_of_strings() {
    let samples = [
        "", "a", "ab", "b", "B", "é", "e", "z", "\u{10FFFF}", "\u{FFFF}", "\u{E000}", "\u{D7FF}",
        "CONFIG_A", "CONFIG_", "CONFIG_a", "CONFIG_A=", "日本", "日",
    ];
    for a in samples {
        for b in samples {
            assert_eq!(compare(a, b), expected_position(a, b), "{:?} against {:?}", a, b);
        }
    }
}

#[test]
fn same_text_tells_equal_from_different() {
    assert!(same_text("md", "md"));
    assert!(same_text("", ""));
    assert!(!same_text("md", "MD"));
    assert!(!same_text("md", "md "));
    assert!(!same_text("csv", "cs"));
}

#[test]
fn push_decimal_writes_the_numeral() {
    assert_eq!(decimal_of(0), "0");
    assert_eq!(decimal_of(7), "7");
    assert_eq!(decimal_of(9), "9");
    assert_eq!(decimal_of(10), "10");
    assert_eq!(decimal_of(101), "101");
    assert_eq!(decimal_of(1234567890), "1234567890");
    assert_eq!(decimal_of(u64::MAX), "18446744073709551615");
}

#[test]
fn push_decimal_appends_to_what_is_there() {
    let mut out = String::from("n=");
    push_decimal(&mut out, 42);
    assert_eq!(out, "n=42");
    push_decimal(&mut out, 0);
    assert_eq!(out, "n=420");
}

#[test]
fn push_decimal_agrees_with_to_string() {
    let mut n: u64 = 1;
    for _ in 0..64 {
        assert_eq!(decimal_of(n), n.to_string());
        assert_eq!(decimal_of(n - 1), (n - 1).to_string());
        n = n.wrapping_mul(2);
    }
}
