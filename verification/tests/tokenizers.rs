use systemd_unit::{quote_words, SplitStrv, SplitWord};

fn strv(src: &str) -> Vec<String> {
    let mut words = Vec::new();
    let mut split = SplitStrv::new(src);
    while let Some(word) = split.next() {
        words.push(word);
    }
    words
}

fn words(src: &str) -> Vec<String> {
    let mut words = Vec::new();
    let mut split = SplitWord::new(src);
    while let Some(word) = split.next() {
        words.push(word);
    }
    words
}

#[test]
fn retain_escape_tokenizer_keeps_backslashes() {
    assert_eq!(strv("a \"b c\" d\\e"), vec!["a", "b c", "d\\e"]);
}

#[test]
fn interpreting_tokenizer_consumes_backslashes() {
    assert_eq!(words("a \"b c\" d\\e"), vec!["a", "b c", "de"]);
}

#[test]
fn tokenizers_yield_nothing_for_blank_input() {
    assert_eq!(strv(""), Vec::<String>::new());
    assert_eq!(strv(" \t\r\n "), Vec::<String>::new());
    assert_eq!(words(""), Vec::<String>::new());
    assert_eq!(words(" \t\r\n "), Vec::<String>::new());
}

#[test]
fn tokenizers_split_at_runs_of_separators() {
    assert_eq!(strv("  one\ttwo \n three\r"), vec!["one", "two", "three"]);
    assert_eq!(words("  one\ttwo \n three\r"), vec!["one", "two", "three"]);
}

#[test]
fn tokenizers_join_quoted_and_bare_parts() {
    assert_eq!(strv("pre\"in side\"post 'x y'"), vec!["prein sidepost", "x y"]);
    assert_eq!(words("pre\"in side\"post 'x y'"), vec!["prein sidepost", "x y"]);
    assert_eq!(strv("\"it's\" 'say \"hi\"'"), vec!["it's", "say \"hi\""]);
    assert_eq!(words("\"it's\" 'say \"hi\"'"), vec!["it's", "say \"hi\""]);
}

#[test]
fn tokenizers_accept_an_unmatched_quote() {
    assert_eq!(strv("a \"b c"), vec!["a", "b c"]);
    assert_eq!(words("a \"b c"), vec!["a", "b c"]);
}

#[test]
fn an_empty_word_ends_the_words() {
    assert_eq!(strv("\"\" a"), Vec::<String>::new());
    assert_eq!(words("\"\" a"), Vec::<String>::new());
    assert_eq!(strv("a '' b"), vec!["a"]);
    assert_eq!(words("a '' b"), vec!["a"]);
}

#[test]
fn interpreting_tokenizer_decodes_escapes() {
    assert_eq!(words("a\\tb c\\x41 \\u00e9 \\101"), vec!["a\tb", "cA", "\u{e9}", "A"]);
    assert_eq!(words("a\\ b"), vec!["a b"]);
    assert_eq!(words("a\\sb"), vec!["a b"]);
    assert_eq!(words("\"x\\\"y\" z"), vec!["x\"y", "z"]);
    assert_eq!(words("'a\\'b'"), vec!["a'b"]);
    assert_eq!(words("\\\\"), vec!["\\"]);
}

#[test]
fn interpreting_tokenizer_drops_a_trailing_backslash() {
    assert_eq!(words("abc\\"), vec!["abc"]);
    assert_eq!(words("a b\\"), vec!["a", "b"]);
}

#[test]
fn interpreting_tokenizer_stops_for_good_at_a_malformed_escape() {
    assert_eq!(words("a b\\xZZ c d"), vec!["a"]);
    assert_eq!(words("\\000 a"), Vec::<String>::new());
    assert_eq!(words("ok \\ud800 more"), vec!["ok"]);

    let mut split = SplitWord::new("a b\\xZZ c d");
    assert_eq!(split.next(), Some("a".to_string()));
    assert_eq!(split.next(), None);
    assert_eq!(split.next(), None);
    assert_eq!(split.next(), None);
}

#[test]
fn retain_escape_tokenizer_treats_escapes_as_text() {
    assert_eq!(strv("a\\tb c\\x41 \\q"), vec!["a\\tb", "c\\x41", "\\q"]);
    assert_eq!(strv("abc\\"), vec!["abc\\"]);
    assert_eq!(strv("a\\ b"), vec!["a\\", "b"]);
}

#[test]
fn splitting_an_encoded_word_list_gives_the_words_back() {
    let lists: [&[&str]; 5] = [
        &[],
        &["one"],
        &["a", "b c", "d"],
        &["tab\there", "q\"q", "it's", "back\\slash", "\u{1}\u{7f}", "caf\u{e9}"],
        &[" ", "\n", "'", "\"", "\\", "x"],
    ];
    for list in lists {
        assert_eq!(words(&quote_words(list)), list.to_vec(), "{:?}", list);
    }
}

#[test]
fn an_empty_word_or_a_nul_does_not_come_back() {
    assert_eq!(words(&quote_words(&["", "x"])), vec!["x"]);
    assert_eq!(words(&quote_words(&["x", ""])), vec!["x"]);
    assert_eq!(words(&quote_words(&["x", "a\u{0}b", "y"])), vec!["x"]);
}
