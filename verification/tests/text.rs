use pmc::text::{chars_lt, i32_decimal, is_whitespace, lowercase_key, parse_i32, str_chars};

fn chars(s: &str) -> Vec<char> {
    s.chars().collect()
}

#[test]
fn parses_i32_like_std() {
    for s in ["0", "42", "+7", "-8", "2147483647", "-2147483648", "007"] {
        assert_eq!(parse_i32(&chars(s)), s.parse::<i32>().ok(), "{}", s);
    }
    for s in ["", "+", "-", "2147483648", "-2147483649", "1a", " 1", "99999999999999"] {
        assert_eq!(parse_i32(&chars(s)), None, "{}", s);
    }
}

#[test]
fn writes_i32_in_decimal() {
    for n in [0, 7, 10, 12345, -1, -450, i32::MAX, i32::MIN] {
        let written: String = i32_decimal(n).into_iter().collect();
        assert_eq!(written, n.to_string());
    }
}

#[test]
fn orders_like_strings() {
    let words = ["", "a", "ab", "b", "B", "é", "abc", "ab"];
    for x in words {
        for y in words {
            assert_eq!(chars_lt(&chars(x), &chars(y)), x < y, "{} {}", x, y);
        }
    }
}

#[test]
fn whitespace_matches_std() {
    for c in ['\t', '\n', ' ', '\u{85}', '\u{a0}', '\u{2003}', '\u{3000}', 'a', '_', '\u{200b}'] {
        assert_eq!(is_whitespace(c), c.is_whitespace(), "{:?}", c);
    }
}

#[test]
fn lowercase_key_is_unicode_lowercase() {
    assert_eq!(lowercase_key("ÉCOLE Abc"), chars("école abc"));
    assert_eq!(str_chars("héllo"), chars("héllo"));
}
