use systemd_unit::text::{
    char_is_alphanumeric, char_is_ascii_space, char_is_separator, char_is_white_space,
    decimal_string,
};
use systemd_unit::{quote_value, quote_words, unquote_value, Error};

fn unquoting_message(raw: &str) -> String {
    match unquote_value(raw) {
        Err(Error::Unquoting(msg)) => msg,
        other => panic!("expected an unquoting error, got {:?}", other),
    }
}

#[test]
fn quote_value_uses_named_escapes() {
    assert_eq!(quote_value("\u{7}"), "\\a");
    assert_eq!(quote_value("\u{8}"), "\\b");
    assert_eq!(quote_value("\u{c}"), "\\f");
    assert_eq!(quote_value("\n"), "\\n");
    assert_eq!(quote_value("\r"), "\\r");
    assert_eq!(quote_value("\t"), "\\t");
    assert_eq!(quote_value("\u{b}"), "\\v");
    assert_eq!(quote_value("\\"), "\\\\");
    assert_eq!(quote_value("\""), "\\\"");
}

#[test]
fn quote_value_leaves_space_and_apostrophe() {
    assert_eq!(quote_value("it's a value"), "it's a value");
    assert_eq!(quote_value(""), "");
}

#[test]
fn quote_value_writes_other_controls_in_hex() {
    assert_eq!(quote_value("\u{0}"), "\\x00");
    assert_eq!(quote_value("\u{1}"), "\\x01");
    assert_eq!(quote_value("\u{1b}"), "\\x1b");
    assert_eq!(quote_value("\u{1f}"), "\\x1f");
    assert_eq!(quote_value("\u{7f}"), "\\x7f");
}

#[test]
fn quote_value_never_escapes_beyond_ascii() {
    assert_eq!(quote_value("\u{80}"), "\u{80}");
    assert_eq!(quote_value("\u{85}"), "\u{85}");
    assert_eq!(quote_value("caf\u{e9} \u{1f600}"), "caf\u{e9} \u{1f600}");
}

#[test]
fn quote_value_agrees_with_the_escape_table_on_ascii() {
    for n in 0u32..=127 {
        let c = char::from_u32(n).unwrap();
        let expected = match c {
            '\u{7}' => "\\a".to_string(),
            '\u{8}' => "\\b".to_string(),
            '\n' => "\\n".to_string(),
            '\r' => "\\r".to_string(),
            '\t' => "\\t".to_string(),
            '\u{b}' => "\\v".to_string(),
            '\u{c}' => "\\f".to_string(),
            '\\' => "\\\\".to_string(),
            '"' => "\\\"".to_string(),
            _ if c.is_ascii_control() => format!("\\x{:02x}", n),
            _ => c.to_string(),
        };
        assert_eq!(quote_value(&c.to_string()), expected, "code point {}", n);
    }
}

#[test]
fn quote_words_quotes_only_where_needed() {
    assert_eq!(quote_words(&["a", "b c", "d"]), "a \"b c\" d");
    assert_eq!(quote_words(&["plain"]), "plain");
    assert_eq!(quote_words(&[]), "");
    assert_eq!(quote_words(&["tab\there", "q\"q"]), "\"tab\\there\" \"q\\\"q\"");
    assert_eq!(quote_words(&["it's"]), "\"it's\"");
    assert_eq!(quote_words(&["", "x"]), " x");
}

#[test]
fn unquote_value_decodes_hex_escape() {
    assert_eq!(unquote_value("\\x41"), Ok("A".to_string()));
}

#[test]
fn unquote_value_rejects_nul_and_bad_hex() {
    assert!(matches!(unquote_value("\\000"), Err(Error::Unquoting(_))));
    assert!(matches!(unquote_value("\\xG"), Err(Error::Unquoting(_))));
    assert!(matches!(unquote_value("\\x00"), Err(Error::Unquoting(_))));
}

#[test]
fn unquote_value_decodes_every_named_escape() {
    assert_eq!(
        unquote_value("\\a\\b\\f\\n\\r\\t\\v\\\\\\\"\\'\\s"),
        Ok("\u{7}\u{8}\u{c}\n\r\t\u{b}\\\"' ".to_string())
    );
}

#[test]
fn unquote_value_decodes_numeric_escapes() {
    assert_eq!(unquote_value("\\u00e9"), Ok("\u{e9}".to_string()));
    assert_eq!(unquote_value("\\U0001F600"), Ok("\u{1f600}".to_string()));
    assert_eq!(unquote_value("\\101\\102"), Ok("AB".to_string()));
    assert_eq!(unquote_value("\\x4a\\x4A"), Ok("JJ".to_string()));
    assert_eq!(unquote_value("\\777"), Ok("\u{1ff}".to_string()));
    assert_eq!(unquote_value("\\x41BC"), Ok("ABC".to_string()));
}

#[test]
fn unquote_value_removes_quotes_at_word_starts() {
    assert_eq!(unquote_value("\"a b\""), Ok("a b".to_string()));
    assert_eq!(unquote_value("'a b' c"), Ok("a b c".to_string()));
    assert_eq!(unquote_value("x \"y z\""), Ok("x y z".to_string()));
    assert_eq!(unquote_value("it's"), Ok("it's".to_string()));
    assert_eq!(unquote_value("a\"b"), Ok("a\"b".to_string()));
    assert_eq!(unquote_value("\"unterminated"), Ok("unterminated".to_string()));
    assert_eq!(unquote_value("\"a\\tb\""), Ok("a\tb".to_string()));
}

#[test]
fn unquote_value_copies_the_other_quote_inside_a_quotation() {
    assert_eq!(unquote_value("\"a 'b\""), Ok("a 'b".to_string()));
    assert_eq!(unquote_value("'a \"b'"), Ok("a \"b".to_string()));
    assert_eq!(unquote_value("'a \"b' \"c 'd\""), Ok("a \"b c 'd".to_string()));
    assert_eq!(unquote_value("\" 'x' \""), Ok(" 'x' ".to_string()));
    assert_eq!(unquote_value("\"a \"b\""), Ok("a b\"".to_string()));
    assert_eq!(unquote_value("\"a\\n'b\""), Ok("a\n'b".to_string()));
}

#[test]
fn unquote_value_reports_what_is_wrong() {
    assert_eq!(unquoting_message("abc\\"), "expecting escape sequence, but found EOF.");
    assert_eq!(unquoting_message("\\q"), "expecting escape sequence, but found 'q'.");
    assert_eq!(
        unquoting_message("\\x4"),
        "expecting unicode escape sequence, but found EOF."
    );
    assert_eq!(
        unquoting_message("\\x4G"),
        "expected 2 hex values after \"\\G\", but got \"\\G4G\""
    );
    assert_eq!(
        unquoting_message("\\u12_4"),
        "expected 4 hex values after \"\\_\", but got \"\\_12_\""
    );
    assert_eq!(
        unquoting_message("\\18"),
        "expected 3 octal values after \"\\\", but got \"\\18\""
    );
    assert_eq!(unquoting_message("\\000"), "\\0 character not allowed in escape sequence");
    assert_eq!(
        unquoting_message("\\ud800"),
        "invalid unicode character in escape sequence: converted integer out of range for `char`"
    );
    assert_eq!(
        unquoting_message("\\U00110000"),
        "invalid unicode character in escape sequence: converted integer out of range for `char`"
    );
    assert_eq!(
        unquoting_message("\\UFFFFFFFF"),
        "invalid unicode character in escape sequence: converted integer out of range for `char`"
    );
}

#[test]
fn the_out_of_range_message_is_the_one_of_the_standard_library() {
    let e = char::try_from(0xd800u32).unwrap_err();
    assert_eq!(
        unquoting_message("\\ud800"),
        format!("invalid unicode character in escape sequence: {}", e)
    );
}

#[test]
fn encoding_then_decoding_gives_the_string_back() {
    for s in [
        "",
        "plain",
        "two words",
        "tab\tand\nnewline",
        "back\\slash",
        "quote\"inside",
        "it's fine",
        "\u{1}\u{2}\u{1f}\u{7f}",
        "caf\u{e9} \u{1f600} \u{80}",
        "a\u{7}b\u{8}c\u{b}d\u{c}e\rf",
    ] {
        assert_eq!(unquote_value(&quote_value(s)), Ok(s.to_string()), "{:?}", s);
    }
}

#[test]
fn encoding_then_decoding_loses_an_apostrophe_at_a_word_start() {
    assert_eq!(unquote_value(&quote_value("'a")), Ok("a".to_string()));
    assert_eq!(unquote_value(&quote_value("a 'b")), Ok("a b".to_string()));
    assert!(unquote_value(&quote_value("a\u{0}b")).is_err());
}

#[test]
fn character_classes_agree_with_the_standard_library() {
    for n in 0u32..=0x10ffff {
        if let Some(c) = char::from_u32(n) {
            assert_eq!(char_is_white_space(c), c.is_whitespace(), "white space {}", n);
            assert_eq!(char_is_ascii_space(c), c.is_ascii_whitespace(), "ascii space {}", n);
            assert_eq!(
                char_is_alphanumeric(c),
                c.is_alphanumeric(),
                "alphanumeric {}",
                n
            );
            assert_eq!(
                char_is_separator(c),
                c == ' ' || c == '\t' || c == '\n' || c == '\r',
                "separator {}",
                n
            );
        }
    }
}

#[test]
fn decimal_string_writes_numbers_as_usual() {
    for n in [0usize, 1, 9, 10, 11, 99, 100, 12345, usize::MAX] {
        assert_eq!(decimal_string(n), n.to_string());
    }
}
