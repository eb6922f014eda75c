use smart_todo::text::{
    chars_lt, concat2, find_char, join_path, owned, parse_i32, parse_u64, str_eq, str_lt, string_of, trimmed,
    u64_text, zero_padded_text,
};

#[test]
fn unsigned_numbers_parse_as_the_standard_library_parses_them() {
    for s in ["0", "42", "+7", "0007", "18446744073709551615", "", "+", "-1", "1 ", " 1", "18446744073709551616", "4a"] {
        assert_eq!(parse_u64(s), s.parse::<u64>().ok(), "{s:?}");
    }
}

#[test]
fn signed_numbers_parse_as_the_standard_library_parses_them() {
    for s in ["0", "-0", "280", "-12", "+5", "2147483647", "-2147483648", "2147483648", "-2147483649", "", "-", "1.5"] {
        assert_eq!(parse_i32(s), s.parse::<i32>().ok(), "{s:?}");
    }
}

#[test]
fn numbers_print_in_decimal() {
    for n in [0u64, 7, 10, 1234567890, u64::MAX] {
        assert_eq!(u64_text(n), n.to_string());
    }
    assert_eq!(zero_padded_text(7, 6), "000007");
    assert_eq!(zero_padded_text(1234567, 6), "1234567");
    assert_eq!(zero_padded_text(0, 0), "0");
}

#[test]
fn trimming_matches_the_standard_library() {
    for s in ["", "  ", " a b ", "\t\n x\r\n", "\u{a0}y\u{2003}", "z"] {
        assert_eq!(trimmed(s), s.trim(), "{s:?}");
    }
}

#[test]
fn path_components_are_joined_with_one_slash() {
    assert_eq!(join_path("/a", "b"), "/a/b");
    assert_eq!(join_path("/a/", "b"), "/a/b");
    assert_eq!(join_path("", "b"), "b");
}

#[test]
fn strings_compare_by_code_point() {
    assert!(str_lt("abc", "abd"));
    assert!(str_lt("ab", "abc"));
    assert!(!str_lt("abc", "abc"));
    assert!(!str_lt("b", "abc"));
    assert!(chars_lt(&['a'], &['b']));
    assert!(str_eq("x", "x") && !str_eq("x", "y"));
}

#[test]
fn small_string_helpers() {
    assert_eq!(concat2("ab", "cd"), "abcd");
    assert_eq!(owned("q"), "q".to_string());
    assert_eq!(string_of(&['h', 'i']), "hi");
    assert_eq!(find_char(&['a', ':', 'b', ':'], ':'), Some(1));
    assert_eq!(find_char(&['a'], ':'), None);
}

#[test]
fn an_absolute_part_replaces_the_base() {
    assert_eq!(join_path("/a", "/b/c"), "/b/c");
    assert_eq!(join_path("", "/b"), "/b");
}
