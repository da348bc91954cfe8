use kconfig_compare::parameters::{
    analyze_changes, new_values_sequence, parse_name_and_value, scan_line, update_values_sequence,
    ChangeType, ParsedLine,
};

fn pair(old: &str, new: &str) -> [String; 2] {
    [old.to_string(), new.to_string()]
}

#[test]
fn parses_an_assignment() {
    assert_eq!(parse_name_and_value("CONFIG_FOO=1"), Some(("CONFIG_FOO", "1")));
    assert_eq!(parse_name_and_value("CONFIG_BAR=y"), Some(("CONFIG_BAR", "y")));
    assert_eq!(
        parse_name_and_value("CONFIG_CC_VERSION_TEXT=\"gcc (GCC) 13.2.0\""),
        Some(("CONFIG_CC_VERSION_TEXT", "\"gcc (GCC) 13.2.0\""))
    );
}

#[test]
fn parses_an_assignment_with_an_empty_value() {
    assert_eq!(parse_name_and_value("CONFIG_FOO="), Some(("CONFIG_FOO", "")));
}

#[test]
fn parses_the_bare_prefix_as_a_key() {
    assert_eq!(parse_name_and_value("CONFIG=1"), Some(("CONFIG", "1")));
    assert_eq!(parse_name_and_value("CONFIG="), Some(("CONFIG", "")));
}

#[test]
fn splits_at_the_first_equals_sign() {
    assert_eq!(
        parse_name_and_value("CONFIG_CMDLINE=\"root=/dev/sda1 quiet=1\""),
        Some(("CONFIG_CMDLINE", "\"root=/dev/sda1 quiet=1\""))
    );
    assert_eq!(parse_name_and_value("CONFIG_A==b"), Some(("CONFIG_A", "=b")));
}

#[test]
fn trims_the_line_before_parsing() {
    assert_eq!(parse_name_and_value("  CONFIG_FOO=1  "), Some(("CONFIG_FOO", "1")));
    assert_eq!(parse_name_and_value("\tCONFIG_FOO=1\r\n"), Some(("CONFIG_FOO", "1")));
    assert_eq!(parse_name_and_value("CONFIG_FOO= 1"), Some(("CONFIG_FOO", " 1")));
    assert_eq!(parse_name_and_value("CONFIG_FOO =1"), Some(("CONFIG_FOO ", "1")));
    assert_eq!(parse_name_and_value(" \t# CONFIG_FOO is not set \n"), Some(("CONFIG_FOO", "is not set")));
}

#[test]
fn parses_a_disabled_parameter() {
    assert_eq!(parse_name_and_value("# CONFIG_BAZ is not set"), Some(("CONFIG_BAZ", "is not set")));
    assert_eq!(parse_name_and_value("#CONFIG_BAZ is not set"), Some(("CONFIG_BAZ", "is not set")));
    assert_eq!(
        parse_name_and_value("#   CONFIG_BAZ is not set"),
        Some(("CONFIG_BAZ", "is not set"))
    );
}

#[test]
fn splits_a_disabled_parameter_at_the_first_space() {
    assert_eq!(
        parse_name_and_value("# CONFIG_BAZ  is not set"),
        Some(("CONFIG_BAZ", " is not set"))
    );
    assert_eq!(
        parse_name_and_value("# CONFIG_BAZ was set but is not set"),
        Some(("CONFIG_BAZ", "was set but is not set"))
    );
    assert_eq!(parse_name_and_value("# CONFIGis not set"), Some(("CONFIGis", "not set")));
    assert_eq!(
        parse_name_and_value("# CONFIG_A=1 is not set"),
        Some(("CONFIG_A=1", "is not set"))
    );
}

#[test]
fn ignores_blank_lines() {
    assert_eq!(parse_name_and_value(""), None);
    assert_eq!(parse_name_and_value("   "), None);
    assert_eq!(parse_name_and_value("\t\r\n"), None);
}

#[test]
fn ignores_comments() {
    assert_eq!(parse_name_and_value("#"), None);
    assert_eq!(parse_name_and_value("# Automatically generated file; DO NOT EDIT."), None);
    assert_eq!(parse_name_and_value("# CONFIG_BAZ is set"), None);
    assert_eq!(parse_name_and_value("# CONFIG_BAZ is not set."), None);
    assert_eq!(parse_name_and_value("# BAZ is not set"), None);
    assert_eq!(parse_name_and_value("## CONFIG_BAZ is not set"), None);
    assert_eq!(parse_name_and_value("# CONFIG_BAZ=y"), None);
}

#[test]
fn ignores_lines_that_begin_with_neither_config_nor_hash() {
    assert_eq!(parse_name_and_value("FOO=1"), None);
    assert_eq!(parse_name_and_value("config_foo=1"), None);
    assert_eq!(parse_name_and_value("export CONFIG_FOO=1"), None);
    assert_eq!(parse_name_and_value("=CONFIG_FOO"), None);
    assert_eq!(parse_name_and_value("CONFI=1"), None);
    assert_eq!(parse_name_and_value("// CONFIG_FOO is not set"), None);
}

#[test]
fn gives_nothing_for_an_assignment_without_equals_sign() {
    assert_eq!(parse_name_and_value("CONFIG_FOO"), None);
    assert_eq!(parse_name_and_value("CONFIG_FOO y"), None);
    assert_eq!(parse_name_and_value("CONFIG"), None);
}

#[test]
fn scan_line_tells_malformed_from_ignored() {
    assert!(matches!(scan_line("CONFIG_FOO"), ParsedLine::Malformed("CONFIG_FOO")));
    assert!(matches!(scan_line("  CONFIG_FOO y \n"), ParsedLine::Malformed("CONFIG_FOO y")));
    assert!(matches!(scan_line("# a comment"), ParsedLine::Ignored));
    assert!(matches!(scan_line(""), ParsedLine::Ignored));
    assert!(matches!(scan_line("FOO"), ParsedLine::Ignored));
    assert!(matches!(scan_line("CONFIG_FOO=y"), ParsedLine::Pair("CONFIG_FOO", "y")));
    assert!(matches!(
        scan_line("# CONFIG_FOO is not set"),
        ParsedLine::Pair("CONFIG_FOO", "is not set")
    ));
}

#[test]
fn parses_keys_and_values_beyond_ascii() {
    assert_eq!(parse_name_and_value("CONFIG_É=ü"), Some(("CONFIG_É", "ü")));
    assert_eq!(parse_name_and_value("\u{3000}CONFIG_X=日本\u{A0}"), Some(("CONFIG_X", "日本")));
    assert_eq!(parse_name_and_value("# CONFIG_É is not set"), Some(("CONFIG_É", "is not set")));
}

#[test]
fn new_values_sequence_fills_one_slot() {
    assert_eq!(new_values_sequence(0, "y"), pair("y", ""));
    assert_eq!(new_values_sequence(1, "y"), pair("", "y"));
    assert_eq!(new_values_sequence(0, ""), pair("", ""));
}

#[test]
fn update_values_sequence_fills_an_empty_slot() {
    let mut state = pair("y", "");
    assert!(update_values_sequence(&mut state, 1, "m"));
    assert_eq!(state, pair("y", "m"));
    let mut state = pair("", "n");
    assert!(update_values_sequence(&mut state, 0, "y"));
    assert_eq!(state, pair("y", "n"));
}

#[test]
fn update_values_sequence_keeps_the_first_value() {
    let mut state = pair("y", "m");
    assert!(!update_values_sequence(&mut state, 0, "n"));
    assert_eq!(state, pair("y", "m"));
    assert!(!update_values_sequence(&mut state, 1, "n"));
    assert_eq!(state, pair("y", "m"));
}

#[test]
fn update_values_sequence_takes_an_empty_value_for_an_empty_slot() {
    let mut state = pair("y", "");
    assert!(update_values_sequence(&mut state, 1, ""));
    assert_eq!(state, pair("y", ""));
}

#[test]
fn classifies_by_the_empty_slots_first() {
    assert_eq!(analyze_changes(&pair("", "y")), ChangeType::Added);
    assert_eq!(analyze_changes(&pair("y", "")), ChangeType::Removed);
    assert_eq!(analyze_changes(&pair("", "is not set")), ChangeType::Added);
}

#[test]
fn classifies_by_the_values_where_both_are_set() {
    assert_eq!(analyze_changes(&pair("y", "y")), ChangeType::Unmodified);
    assert_eq!(analyze_changes(&pair("y", "m")), ChangeType::Modified);
    assert_eq!(analyze_changes(&pair("1", "2")), ChangeType::Modified);
    assert_eq!(analyze_changes(&pair("y", "is not set")), ChangeType::Modified);
    assert_eq!(analyze_changes(&pair("y", "y ")), ChangeType::Modified);
}

#[test]
fn names_of_the_kinds() {
    assert_eq!(ChangeType::Modified.name(), "Modified");
    assert_eq!(ChangeType::Unmodified.name(), "Unmodified");
    assert_eq!(ChangeType::Added.name(), "Added");
    assert_eq!(ChangeType::Removed.name(), "Removed");
}
