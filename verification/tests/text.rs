use code2prompt::text::{
    blank, chars_of, find_from, has_char, is_whitespace, is_word, push_decimal, same_chars, split,
    split_lines, split_whitespace, string_of, to_lower, trim_bounds,
};

fn v(s: &str) -> Vec<char> {
    s.chars().collect()
}

fn strings(rows: Vec<Vec<char>>) -> Vec<String> {
    rows.iter().map(|r| r.iter().collect()).collect()
}

#[test]
fn chars_and_strings_round_trip() {
    let s = "héllo, wörld \u{1F600}";
    assert_eq!(chars_of(s), v(s));
    assert_eq!(string_of(&chars_of(s)), s);
    assert_eq!(string_of(&Vec::new()), "");
}

#[test]
fn whitespace_agrees_with_std_on_every_character() {
    let mut u: u32 = 0;
    while u <= 0x10FFFF {
        if let Some(c) = char::from_u32(u) {
            assert_eq!(is_whitespace(c), c.is_whitespace());
        }
        u += 1;
    }
}

#[test]
fn trim_bounds_agree_with_std_trim() {
    for s in ["", "   ", "a", "  a b \t\n", "\u{3000}x\u{a0}", "no-space", " \r\n x"] {
        let chars = v(s);
        let (from, to) = trim_bounds(&chars);
        let got: String = chars[from..to].iter().collect();
        assert_eq!(got, s.trim());
        assert_eq!(blank(&chars), s.trim().is_empty());
    }
}

#[test]
fn split_agrees_with_std_split() {
    for s in ["", ",", "a,b", "a,,b,", ",a", "abc", "a, b ,c"] {
        let expected: Vec<String> = s.split(',').map(|p| p.to_string()).collect();
        assert_eq!(strings(split(&v(s), ',')), expected);
    }
}

#[test]
fn lines_agree_with_std_lines() {
    for s in ["", "\n", "a", "a\n", "a\nb", "a\r\nb\r\n", "a\r", "\r\n", "a\n\nb", "x\ry\n\r"] {
        let expected: Vec<String> = s.lines().map(|p| p.to_string()).collect();
        assert_eq!(strings(split_lines(&v(s))), expected);
    }
}

#[test]
fn words_agree_with_std_split_whitespace() {
    for s in ["", "  ", "a", " a  b\tc\n", "/tmp/x  /tmp/y", "\u{2003}p\u{2003}"] {
        let expected: Vec<String> = s.split_whitespace().map(|p| p.to_string()).collect();
        assert_eq!(strings(split_whitespace(&v(s))), expected);
    }
}

#[test]
fn decimal_numerals() {
    for n in [0usize, 7, 10, 99, 100, 1234, 90210, usize::MAX] {
        let mut out = Vec::new();
        push_decimal(&mut out, n);
        let got: String = out.iter().collect();
        assert_eq!(got, n.to_string());
    }
}

#[test]
fn lower_case_and_words() {
    assert_eq!(to_lower(&v("DoCkEr-Ä9")), v("docker-Ä9"));
    assert!(is_word(&v("DOCKER"), "docker"));
    assert!(is_word(&v("env"), "ENV"));
    assert!(!is_word(&v("docker "), "docker"));
}

#[test]
fn searching_characters() {
    let chars = v("a/b/c");
    assert!(has_char(&chars, '/'));
    assert!(!has_char(&chars, '*'));
    assert_eq!(find_from(&chars, 0, '/'), 1);
    assert_eq!(find_from(&chars, 2, '/'), 3);
    assert_eq!(find_from(&chars, 4, '/'), 5);
    assert!(same_chars(&v("abc"), &v("abc")));
    assert!(!same_chars(&v("abc"), &v("abd")));
    assert!(!same_chars(&v("abc"), &v("ab")));
}
