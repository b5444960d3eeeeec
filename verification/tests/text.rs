use bson2csv::text::{
    index_to_text, integer_to_text, lower_text, parse_i32, parse_i64, parse_index, replace_text,
    split_text, split_text_once, trim_text, unsigned_to_text,
};

#[test]
fn texts_are_split_like_std_splits_them() {
    for s in ["", ".", "a", "a.b", ".a.", "a..b", "user.address.city", "é.ü", "..."] {
        let expected: Vec<String> = s.split('.').map(|p| p.to_string()).collect();
        assert_eq!(split_text(s, '.'), expected);
    }
    for s in ["", "=", "a", "a=b", "a=b=c", "=b", "a="] {
        let expected = s.split_once('=').map(|(k, v)| (k.to_string(), v.to_string()));
        assert_eq!(split_text_once(s, '='), expected);
    }
}

#[test]
fn parts_of_both_sides_follow_each_other() {
    let mut parts = split_text("a.b", '.');
    parts.append(&mut split_text("c", '.'));
    assert_eq!(split_text("a.b.c", '.'), parts);
}

#[test]
fn white_space_is_that_of_std() {
    for u in 0..=0x10ffffu32 {
        if let Some(c) = char::from_u32(u) {
            if c.is_whitespace() || u % 97 == 0 {
                let s = format!("{c}x{c}");
                assert_eq!(trim_text(&s), s.trim(), "U+{u:04X}");
            }
        }
    }
    for s in ["", " ", " \t\r\n", "a b", "  a b \n"] {
        assert_eq!(trim_text(s), s.trim());
        assert_eq!(trim_text(&trim_text(s)), trim_text(s));
    }
}

#[test]
fn only_ascii_letters_are_lowered() {
    for s in ["", "ABC", "aBc1", "ÄÖÜ", "Zz@[`{"] {
        assert_eq!(lower_text(s), s.to_ascii_lowercase());
    }
}

#[test]
fn integers_have_the_text_of_std() {
    for n in [0, 1, -1, 9, 10, 99, 100, -12345, i64::MAX, i64::MIN] {
        assert_eq!(integer_to_text(n), n.to_string());
    }
    for n in [0, 7, 10, u64::MAX] {
        assert_eq!(unsigned_to_text(n), n.to_string());
    }
    for n in [0, 7, 42, 999, 12345, 99999, 100000, u64::MAX] {
        assert_eq!(index_to_text(n), format!("{n:05}"));
        assert_eq!(index_to_text(n).parse::<u64>(), Ok(n));
    }
}

#[test]
fn integers_are_parsed_like_std_parses_them() {
    let texts = [
        "", "+", "-", "0", "-0", "+0", "007", "1", "-1", "+1", "--1", "+-1", " 1", "1 ", "1.0", "1e3",
        "2147483647", "2147483648", "-2147483648", "-2147483649", "9223372036854775807",
        "9223372036854775808", "-9223372036854775808", "-9223372036854775809",
        "18446744073709551615", "18446744073709551616", "99999999999999999999999999", "٣", "abc",
        "0000000000000000000000000001",
    ];
    for s in texts {
        assert_eq!(parse_i32(s), s.parse::<i32>().ok(), "{s}");
        assert_eq!(parse_i64(s), s.parse::<i64>().ok(), "{s}");
        assert_eq!(parse_index(s), s.parse::<usize>().ok(), "{s}");
    }
}

#[test]
fn patterns_are_replaced_like_std_replaces_them() {
    let cases = [
        ("", "{file}", "x"),
        ("aws s3 cp {file} s3://b/{file}", "{file}", "/tmp/a.csv"),
        ("aaaa", "aa", "b"),
        ("aaa", "aa", "aa"),
        ("{fil{file}", "{file}", "-"),
        ("no placeholder", "{index}", "00001"),
        ("{file}{file}", "{file}", "{file}"),
        ("ab", "abc", "x"),
    ];
    for (s, pattern, by) in cases {
        assert_eq!(replace_text(s, pattern, by), s.replace(pattern, by), "{s}");
    }
}
