use cotowali::chars::{is_decimal_digit, is_hex_digit, is_newline, is_octal_digit, is_whitespace, str_eq, Char};

#[test]
fn test_from_str() {
    let c = '🐈';
    assert_eq!(Char::from(c.to_string().as_str()).char(), c)
}

#[test]
fn test_char_eq_ne() {
    assert_eq!("🐈", Char::from("🐈"));
    assert_ne!("🐈", Char::from("🐶"));
    assert_eq!(*"🐈", Char::from("🐈"));
    assert_ne!(*"🐈", Char::from("🐶"));
    assert_eq!("🐈".to_string(), Char::from("🐈"));
    assert_ne!("🐈".to_string(), Char::from("🐶"));
}

#[test]
fn test_fmt() {
    let s = "🐈";
    let c = Char::from(s);
    assert_eq!(c.to_display_string(), format!("{}", s));
    // `Char` derives `Debug`, which shows the wrapper around the text: this
    // output differs from the text's own `Debug` output.
    assert_eq!(format!("{:?}", c), format!("Char({:?})", s));
}

#[test]
fn test_char_eq_char() {
    for (s, t) in [("🐈", "🐈"), ("🐈", "🐶"), ("a", "ab"), ("", "")] {
        assert_eq!(Char::from(s) == Char::from(t), s == t);
        assert_eq!(Char::from(s) == *t, s == t);
        assert_eq!(*t == Char::from(s), s == t);
        assert_eq!(Char::from(s) == t.to_string(), s == t);
    }
}

#[test]
fn test_char() {
    assert_eq!(Char::from("a").char(), 'a');
    assert_eq!(Char::from("🐈").char(), '🐈');
}

#[test]
fn test_len() {
    assert_eq!(Char::from("a").len(), 'a'.len_utf8());
    assert_eq!(Char::from("🐈").len(), '🐈'.len_utf8());
}

#[test]
fn test_is_empty() {
    assert!(!Char::from("a").is_empty());
    assert!(!Char::from("🐈").is_empty());
}

fn whitespace_newline(c: &str) -> (bool, bool) {
    (is_whitespace(c.into()), is_newline(c.into()))
}

#[test]
fn test_whitespace_newline_space() {
    assert_eq!(whitespace_newline(" "), (true, false));
}

#[test]
fn test_whitespace_newline_tab() {
    assert_eq!(whitespace_newline("\t"), (true, false));
}

#[test]
fn test_whitespace_newline_ln() {
    assert_eq!(whitespace_newline("\n"), (true, true));
}

#[test]
fn test_whitespace_newline_cr() {
    assert_eq!(whitespace_newline("\r"), (true, true));
}

#[test]
fn test_whitespace_newline_a() {
    assert_eq!(whitespace_newline("a"), (false, false));
}

#[test]
fn test_whitespace_newline_hiragana() {
    assert_eq!(whitespace_newline("あ"), (false, false));
}

#[test]
fn test_whitespace_unicode_spaces() {
    assert_eq!(whitespace_newline("\u{3000}"), (true, false));
    assert_eq!(whitespace_newline("\u{a0}"), (true, false));
    assert_eq!(whitespace_newline("\u{2028}"), (true, false));
    assert_eq!(whitespace_newline("\u{200b}"), (false, false));
}

fn digit_kinds(c: &str) -> (bool, bool, bool) {
    (is_octal_digit(c.into()), is_decimal_digit(c.into()), is_hex_digit(c.into()))
}

#[test]
fn test_is_digit_octal_decimal_hex_0() {
    assert_eq!(digit_kinds("0"), (true, true, true));
}

#[test]
fn test_is_digit_octal_decimal_hex_1() {
    assert_eq!(digit_kinds("1"), (true, true, true));
}

#[test]
fn test_is_digit_octal_decimal_hex_7() {
    assert_eq!(digit_kinds("7"), (true, true, true));
}

#[test]
fn test_is_digit_octal_decimal_hex_8() {
    assert_eq!(digit_kinds("8"), (false, true, true));
}

#[test]
fn test_is_digit_octal_decimal_hex_9() {
    assert_eq!(digit_kinds("9"), (false, true, true));
}

#[test]
fn test_is_digit_octal_decimal_hex_a() {
    assert_eq!(digit_kinds("a"), (false, false, true));
}

#[test]
fn test_is_digit_octal_decimal_hex_capital_a() {
    assert_eq!(digit_kinds("A"), (false, false, true));
}

#[test]
fn test_is_digit_octal_decimal_hex_f() {
    assert_eq!(digit_kinds("f"), (false, false, true));
}

#[test]
fn test_is_digit_octal_decimal_hex_capital_f() {
    assert_eq!(digit_kinds("F"), (false, false, true));
}

#[test]
fn test_is_digit_octal_decimal_hex_g() {
    assert_eq!(digit_kinds("g"), (false, false, false));
}

#[test]
fn test_is_digit_octal_decimal_hex_capital_g() {
    assert_eq!(digit_kinds("G"), (false, false, false));
}

#[test]
fn test_is_digit_octal_decimal_hex_1_with_circle() {
    assert_eq!(digit_kinds("①"), (false, false, false));
}

#[test]
fn test_is_digit_octal_decimal_hex_kanji() {
    assert_eq!(digit_kinds("四"), (false, false, false));
}

#[test]
fn test_ascii() {
    assert_eq!(Char::from("a").ascii(), Some(b'a'));
    assert_eq!(Char::from("\u{7f}").ascii(), Some(0x7f));
    assert_eq!(Char::from("é").ascii(), None);
    assert_eq!(Char::from("🐈").ascii(), None);
}

#[test]
fn test_byte() {
    assert_eq!(Char::from("a").byte(), b'a');
    assert_eq!(Char::from("é").byte(), 0xc3);
    assert_eq!(Char::from("🐈").byte(), 0xf0);
}

#[test]
fn test_empty_char() {
    assert!(Char::from("").is_empty());
    assert_eq!(Char::from("").len(), 0);
}

#[test]
fn test_str_eq() {
    assert!(str_eq("", ""));
    assert!(str_eq("あい", "あい"));
    assert!(!str_eq("あい", "あう"));
    assert!(!str_eq("a", "ab"));
}

#[test]
fn test_char_classes_law() {
    // every octal digit is decimal, every decimal digit is hex, newlines are whitespace
    for c in ["0", "5", "7", "8", "9", "a", "F", "\n", "\r", " ", "x"] {
        let (o, d, h) = digit_kinds(c);
        assert!(!o || d);
        assert!(!d || h);
        let (w, n) = whitespace_newline(c);
        assert!(!n || w);
        assert!(!h || !w);
    }
}
