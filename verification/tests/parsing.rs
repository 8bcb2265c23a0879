use systemd_unit::{Error, ParseError, Parser, SystemdUnit};

fn text_of(unit: &SystemdUnit) -> String {
    let mut out = String::new();
    unit.write_to(&mut out);
    out
}

fn failure(text: &str) -> ParseError {
    match SystemdUnit::load_from_str(text) {
        Err(Error::Unit(e)) => e,
        other => panic!("expected a parse error, got {:?}", other.map(|u| text_of(&u))),
    }
}

fn error(line: usize, col: usize, msg: &str) -> ParseError {
    ParseError { line, col, msg: msg.to_string() }
}

#[test]
fn unterminated_section_header_points_at_the_end() {
    assert_eq!(
        failure("[Foo"),
        error(0, 4, "expected ']' as end of section header, but found EOF")
    );
    assert_eq!(
        failure("# c\n\n[Foo"),
        error(2, 4, "expected ']' as end of section header, but found EOF")
    );
}

#[test]
fn section_header_must_close_on_its_line() {
    assert_eq!(
        failure("[Foo\n]"),
        error(1, 0, "expected ']' as end of section header, but found '\\n'")
    );
}

#[test]
fn section_header_cannot_be_empty() {
    assert_eq!(failure("[]\n"), error(1, 0, "section header cannot be empty"));
    assert_eq!(failure("[]"), error(0, 2, "section header cannot be empty"));
}

#[test]
fn text_before_the_first_section_is_refused() {
    assert_eq!(failure("key=value\n"), error(0, 1, "Expected comment or section"));
    assert_eq!(failure("\n\n  x"), error(2, 3, "Expected comment or section"));
}

#[test]
fn key_needs_an_equals_sign() {
    assert_eq!(failure("[S]\nkey"), error(1, 3, "expected '=' after key, but found EOF"));
    assert_eq!(
        failure("[S]\nkey value"),
        error(1, 5, "expected '=' after key, but found 'v'")
    );
    assert_eq!(
        failure("[S]\nkey\nnext=1"),
        error(2, 0, "expected '=' after key, but found '\\n'")
    );
}

#[test]
fn key_is_made_of_letters_digits_and_hyphens() {
    assert_eq!(
        failure("[S]\nke_y=v"),
        error(1, 5, "Invalid key \"ke_y\". Allowed characters are A-Za-z0-9-")
    );
    let unit = SystemdUnit::load_from_str("[S]\nA-b-9=v\n\u{e9}t\u{e9}=w\n-=x\n").unwrap();
    assert_eq!(unit.lookup_last("S", "A-b-9"), Some("v".to_string()));
    assert_eq!(unit.lookup_last("S", "\u{e9}t\u{e9}"), Some("w".to_string()));
    assert_eq!(unit.lookup_last("S", "-"), Some("x".to_string()));
}

#[test]
fn key_cannot_be_empty() {
    assert_eq!(
        failure("[S]\n=v"),
        error(1, 1, "Invalid key \"\". Allowed characters are A-Za-z0-9-")
    );
    assert_eq!(
        failure("[S]\nk=1\n  = v\n"),
        error(2, 3, "Invalid key \"\". Allowed characters are A-Za-z0-9-")
    );
    assert_eq!(
        failure("[S]=v"),
        error(0, 4, "Invalid key \"\". Allowed characters are A-Za-z0-9-")
    );
}

#[test]
fn a_literal_that_does_not_decode_fails_the_parse() {
    assert_eq!(
        failure("[S]\nk=\\xZZ\nj=1\n[T]\n"),
        error(
            3,
            1,
            "failed unquoting value: expected 2 hex values after \"\\Z\", but got \"\\ZZ\""
        )
    );
    assert_eq!(
        failure("[S]\nk=\\q"),
        error(1, 4, "failed unquoting value: expecting escape sequence, but found 'q'.")
    );
}

#[test]
fn comments_and_blank_lines_are_skipped() {
    let unit = SystemdUnit::load_from_str(
        "# top\n; also\n\n[A]\n# inside\nk = v\n\n;x\n  j=  w  \n[B]\n",
    )
    .unwrap();
    assert_eq!(text_of(&unit), "[A]\nk=v\nj=w  \n\n[B]\n\n");
}

#[test]
fn values_keep_escapes_and_join_continued_lines() {
    let unit = SystemdUnit::load_from_str(
        "[S]\na=x\\ty\nb=one\\\n# note\n; note\ntwo\\\n\\\nthree\nc=end\\\n\nd=q\\\n[T]\ne=tail\\",
    )
    .unwrap();
    assert_eq!(text_of(&unit), "[S]\na=x\\ty\nb=one two  three\nc=end \nd=q \n\n[T]\ne=tail\n\n");
    assert_eq!(unit.lookup_last("S", "a"), Some("x\ty".to_string()));
}

#[test]
fn parser_can_be_driven_directly() {
    let mut parser = Parser::new("[S]\nk=v\n");
    let unit = parser.parse().unwrap();
    assert_eq!(text_of(&unit), "[S]\nk=v\n\n");

    let mut failing = Parser::new("x");
    assert_eq!(failing.parse().err(), Some(error(0, 1, "Expected comment or section")));
}

#[test]
fn errors_read_as_sentences() {
    let e = failure("[Foo");
    assert_eq!(e.to_string(), "0:4 expected ']' as end of section header, but found EOF");
    assert_eq!(
        Error::Unit(e).to_string(),
        "failed to parse unit file: 0:4 expected ']' as end of section header, but found EOF"
    );
    assert_eq!(
        Error::Unquoting("oops".to_string()).to_string(),
        "failed unquoting value: oops"
    );
    assert_eq!(Error::from(error(1, 2, "m")), Error::Unit(error(1, 2, "m")));
}

#[test]
fn headers_and_keys_take_blanks_as_they_come() {
    let unit = SystemdUnit::load_from_str("[ A section ]\nkey \t=\t value\n").unwrap();
    assert_eq!(text_of(&unit), "[ A section ]\nkey=value\n\n");
    assert!(unit.has_section(" A section "));
    assert!(!unit.has_section("A section"));
}

#[test]
fn text_behind_a_header_is_read_as_an_entry() {
    assert_eq!(
        failure("[A] trailing\nk=v\n"),
        error(1, 0, "expected '=' after key, but found '\\n'")
    );
    let unit = SystemdUnit::load_from_str("[A]k=v\n").unwrap();
    assert_eq!(text_of(&unit), "[A]\nk=v\n\n");
}

#[test]
fn a_comment_may_end_the_text() {
    let unit = SystemdUnit::load_from_str("[A]\nk=v\n# the end").unwrap();
    assert_eq!(text_of(&unit), "[A]\nk=v\n\n");
    let other = SystemdUnit::load_from_str("[A]\nk=v\\\n# the end").unwrap();
    assert_eq!(text_of(&other), "[A]\nk=v \n\n");
}

#[test]
fn carriage_returns_stay_in_values() {
    let unit = SystemdUnit::load_from_str("[A]\r\nk=v\r\n").unwrap();
    let values: Vec<String> =
        unit.lookup_all_values("A", "k").into_iter().map(|v| v.raw().clone()).collect();
    assert_eq!(values, vec!["v\r"]);
}

#[test]
fn a_hash_inside_a_value_is_no_comment() {
    let unit = SystemdUnit::load_from_str("[A]\nk=v # not a comment\nj=;x\n").unwrap();
    assert_eq!(unit.lookup_last("A", "k"), Some("v # not a comment".to_string()));
    assert_eq!(unit.lookup_last("A", "j"), Some(";x".to_string()));
}

#[test]
fn empty_text_is_an_empty_document() {
    let unit = SystemdUnit::load_from_str("").unwrap();
    assert_eq!(unit.len(), 0);
    let blank = SystemdUnit::load_from_str(" \n\t\r\n# only a comment\n").unwrap();
    assert_eq!(blank.len(), 0);
}
