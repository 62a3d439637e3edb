use ccs::text::{
    byte_len, chars_of, decimal_text, digit_char, has_part, is_white, parse_integer, push_spaces,
    same_text, split_lines, starts_with, text_of, trimmed,
};

fn integer(s: &str) -> Option<i64> {
    let v = chars_of(s);
    parse_integer(&v, v.len())
}

#[test]
fn white_space_is_that_of_std() {
    for c in '\u{0}'..=char::MAX {
        assert_eq!(is_white(c), c.is_whitespace());
    }
}

#[test]
fn characters_and_back() {
    let v = chars_of("aé\u{1f600}z");
    assert_eq!(v, vec!['a', 'é', '\u{1f600}', 'z']);
    assert_eq!(text_of(&v, 0, 4), "aé\u{1f600}z");
    assert_eq!(text_of(&v, 1, 3), "é\u{1f600}");
    assert_eq!(text_of(&v, 2, 2), "");
}

#[test]
fn lengths_are_counted_in_bytes() {
    assert_eq!(byte_len(""), 0);
    assert_eq!(byte_len("abc"), 3);
    assert_eq!(byte_len("aé\u{1f600}"), 7);
}

#[test]
fn texts_are_compared_whole() {
    assert!(same_text("", ""));
    assert!(same_text("idle", "idle"));
    assert!(!same_text("idle", "idl"));
    assert!(!same_text("idl", "idle"));
    assert!(!same_text("idle", "Idle"));
}

#[test]
fn parts_are_found_as_std_finds_them() {
    let texts = ["", "a", "aa", "aab", "/work/api", "é/é", "abababc"];
    let parts = ["", "a", "b", "aab", "api", "/work/api/", "é", "ababc", "abd"];
    for s in texts {
        for p in parts {
            assert_eq!(has_part(s, p), s.contains(p), "{s:?} {p:?}");
            assert_eq!(starts_with(s, p), s.starts_with(p), "{s:?} {p:?}");
        }
    }
}

#[test]
fn trimming_is_that_of_std() {
    for s in ["", " ", "\t 30m\n", "30m", " 3 0 m ", "\u{3000}x\u{85}", "\u{200b}x"] {
        assert_eq!(trimmed(s), s.trim().chars().collect::<Vec<char>>());
    }
}

#[test]
fn trimmed_text_stays() {
    assert_eq!(trimmed("2 h"), vec!['2', ' ', 'h']);
}

#[test]
fn numbers_in_decimal() {
    assert_eq!(digit_char(0), '0');
    assert_eq!(digit_char(9), '9');
    assert_eq!(decimal_text(0), "0");
    assert_eq!(decimal_text(9), "9");
    assert_eq!(decimal_text(10), "10");
    assert_eq!(decimal_text(90_210), "90210");
    assert_eq!(decimal_text(u64::MAX), "18446744073709551615");
}

#[test]
fn decimal_is_read_back() {
    for n in [0, 7, 10, 86_400, 1_000_000_007, i64::MAX as u64] {
        assert_eq!(integer(&decimal_text(n)), Some(n as i64));
    }
}

#[test]
fn integers_are_read_as_std_reads_them() {
    let texts = [
        "",
        "+",
        "-",
        "0",
        "-0",
        "+7",
        "-7",
        "--7",
        "+-7",
        "007",
        "1 2",
        " 1",
        "1a",
        "\u{ff11}",
        "9223372036854775807",
        "9223372036854775808",
        "-9223372036854775808",
        "-9223372036854775809",
        "99999999999999999999999999",
        "-99999999999999999999999999",
        "000000000000000000000000000012",
    ];
    for s in texts {
        assert_eq!(integer(s), s.parse::<i64>().ok(), "{s:?}");
    }
}

#[test]
fn integer_of_the_first_characters() {
    assert_eq!(parse_integer(&chars_of("30m"), 2), Some(30));
    assert_eq!(parse_integer(&chars_of("30m"), 3), None);
    assert_eq!(parse_integer(&chars_of("30m"), 0), None);
}

#[test]
fn spaces_are_appended() {
    let mut s = String::from("x");
    push_spaces(&mut s, 0);
    assert_eq!(s, "x");
    push_spaces(&mut s, 3);
    assert_eq!(s, "x   ");
}

#[test]
fn lines_are_those_of_std() {
    let texts = [
        "",
        "\n",
        "\n\n",
        "a",
        "a\n",
        "a\nb",
        "a\r\nb\r\n",
        "a\r\r\nb",
        "a\r",
        "\r\n",
        "a\rb\n",
        "é\n\u{2028}\n",
    ];
    for s in texts {
        assert_eq!(split_lines(s), s.lines().map(String::from).collect::<Vec<String>>(), "{s:?}");
    }
}

#[test]
fn no_line_holds_a_line_feed() {
    for line in split_lines("one\ntwo\r\n\nthree") {
        assert!(!line.contains('\n'));
    }
}

#[test]
fn appended_line_is_read_back() {
    let head = split_lines("one\ntwo\n");
    let mut all = split_lines("one\ntwo\nthree\r\n");
    assert_eq!(all.pop(), Some("three".to_string()));
    assert_eq!(all, head);
}
