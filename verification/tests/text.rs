use fan::text::{contains_text, parse_i32};

#[test]
fn integers_parse_like_the_standard_library() {
    for s in ["0", "7", "-85", "+42", "2147483647", "-2147483648", "000123", "", "-", "+", "x",
        "1x", "2147483648", "-2147483649", "99999999999999999999", " 5", "5 ", "--5"] {
        assert_eq!(parse_i32(s), s.parse::<i32>().ok(), "input {s:?}");
    }
}

#[test]
fn substring_search_matches_str_contains() {
    for (hay, needle) in [("speakers", "speak"), ("speakers", ""), ("", ""), ("", "a"),
        ("headset (usb)", "usb"), ("abc", "abcd"), ("aab", "ab"), ("é-ü", "-ü")] {
        assert_eq!(contains_text(hay, needle), hay.contains(needle), "{hay:?} {needle:?}");
    }
}
