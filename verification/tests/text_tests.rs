use sea_lsp::text::{
    chars_of, normalize_newlines, source_lines, split_words, starts_with, ends_with, trim_chars,
    CharClass, char_is_word, string_of,
};

fn s(v: &Vec<char>) -> String {
    v.iter().collect()
}

#[test]
fn lines_follow_str_lines() {
    let cases = ["", "a", "a\n", "a\nb", "a\r\nb\r\n", "\n\n", "a\rb", "x\r"];
    for c in cases {
        let got: Vec<String> = source_lines(c).iter().map(|l| s(l)).collect();
        let want: Vec<String> = c.lines().map(|l| l.to_string()).collect();
        assert_eq!(got, want, "input {:?}", c);
    }
}

#[test]
fn normalize_newlines_replaces_crlf() {
    assert_eq!(normalize_newlines("a\r\nb\r\n"), "a\nb\n");
    assert_eq!(normalize_newlines("a\r\r\nb"), "a\r\nb");
    assert_eq!(normalize_newlines("\r"), "\r");
}

#[test]
fn trim_and_words_match_std() {
    let cases = ["  int  x = 1;\t", "\u{a0}word\u{2003}", "", "   "];
    for c in cases {
        let t = trim_chars(&chars_of(c), CharClass::Whitespace);
        assert_eq!(s(&t), c.trim());
        let w: Vec<String> = split_words(&chars_of(c)).iter().map(|x| s(x)).collect();
        let want: Vec<String> = c.split_whitespace().map(|x| x.to_string()).collect();
        assert_eq!(w, want);
    }
}

#[test]
fn trim_quotes_and_declaration_ends() {
    assert_eq!(s(&trim_chars(&chars_of("\"\"lib\""), CharClass::Quote)), "lib");
    assert_eq!(s(&trim_chars(&chars_of("Dog{"), CharClass::NonWord)), "Dog");
}

#[test]
fn prefix_and_suffix() {
    let v = chars_of("class Dog");
    assert!(starts_with(&v, "class "));
    assert!(!starts_with(&v, "Dog"));
    assert!(ends_with(&v, "Dog"));
    assert!(!ends_with(&chars_of("og"), "Dog"));
}

#[test]
fn char_classes() {
    assert!(char_is_word('é'));
    assert!(char_is_word('7'));
    assert!(char_is_word('_'));
    assert!(!char_is_word('-'));
    assert!(!char_is_word(' '));
    assert_eq!(s(&trim_chars(&chars_of("\u{2003}x\u{2003}"), CharClass::Whitespace)), "x");
    assert_eq!(string_of("hi"), "hi");
}

#[test]
fn whitespace_is_unicode_white_space() {
    for u in 0u32..0x3100 {
        if let Some(c) = char::from_u32(u) {
            let text = format!("a{}b", c);
            let words: Vec<String> = split_words(&chars_of(&text)).iter().map(s).collect();
            let expected: Vec<String> = text.split_whitespace().map(|w| w.to_string()).collect();
            assert_eq!(words, expected, "at U+{:04X}", u);
        }
    }
}
