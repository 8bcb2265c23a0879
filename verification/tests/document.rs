use systemd_unit::{parse_bool, EntryValue, Error, SystemdUnit};

fn text_of(unit: &SystemdUnit) -> String {
    let mut out = String::new();
    unit.write_to(&mut out);
    out
}

fn raws(unit: &SystemdUnit, section: &str, key: &str) -> Vec<String> {
    unit.lookup_all_values(section, key).into_iter().map(|v| v.raw().clone()).collect()
}

#[test]
fn append_then_lookup_all_keeps_append_order() {
    let mut unit = SystemdUnit::new();
    unit.append_entry("Service", "ExecStart", "one");
    unit.append_entry("Service", "Other", "x");
    unit.append_entry("Service", "ExecStart", "two");
    unit.append_entry("Service", "ExecStart", "one");
    assert_eq!(unit.lookup_all("Service", "ExecStart"), vec!["one", "two", "one"]);
    assert_eq!(unit.lookup_last("Service", "ExecStart"), Some("one".to_string()));
    assert_eq!(unit.lookup_all("Service", "Missing"), Vec::<String>::new());
    assert_eq!(unit.lookup_all("Missing", "ExecStart"), Vec::<String>::new());
    assert_eq!(unit.lookup_last("Missing", "ExecStart"), None);
}

#[test]
fn set_changes_only_the_newest_value() {
    let mut unit = SystemdUnit::new();
    unit.append_entry("S", "k", "a");
    unit.append_entry("S", "k", "b");
    unit.append_entry("S", "k", "c");
    unit.set_entry("S", "k", "z");
    assert_eq!(unit.lookup_all("S", "k"), vec!["a", "b", "z"]);
}

#[test]
fn set_creates_what_is_missing() {
    let mut unit = SystemdUnit::new();
    unit.set_entry("S", "k", "v");
    assert_eq!(unit.lookup_all("S", "k"), vec!["v"]);
    assert_eq!(unit.len(), 1);
    unit.set_entry("S", "other", "w");
    assert_eq!(unit.lookup_all("S", "other"), vec!["w"]);
    assert_eq!(unit.lookup_all("S", "k"), vec!["v"]);
}

#[test]
fn set_replaces_the_newest_value_where_it_stands() {
    let mut unit = SystemdUnit::new();
    unit.append_entry("S", "a", "1");
    unit.append_entry("S", "b", "2");
    unit.append_entry("S", "a", "3");
    unit.append_entry("S", "c", "5");
    unit.set_entry("S", "a", "4");
    assert_eq!(text_of(&unit), "[S]\na=1\nb=2\na=4\nc=5\n\n");
    unit.set_entry("S", "b", "6");
    assert_eq!(text_of(&unit), "[S]\na=1\nb=6\na=4\nc=5\n\n");
    unit.set_entry("S", "d", "7");
    assert_eq!(text_of(&unit), "[S]\na=1\nb=6\na=4\nc=5\nd=7\n\n");
}

#[test]
fn set_keeps_the_keys_in_first_insertion_order() {
    let mut unit = SystemdUnit::new();
    unit.append_entry("S", "A", "1");
    unit.append_entry("S", "B", "2");
    unit.set_entry("S", "A", "9");
    assert_eq!(
        unit.section_entries("S"),
        vec![("A", "9".to_string()), ("B", "2".to_string())]
    );
    unit.set_entry_raw("S", "A", "\\x41");
    assert_eq!(
        unit.section_entries("S"),
        vec![("A", "A".to_string()), ("B", "2".to_string())]
    );
}

#[test]
fn set_leaves_the_other_sections_alone() {
    let mut unit = SystemdUnit::load_from_str("[S]\nk=1\n[T]\nk=2\nk=3\n").unwrap();
    unit.set_entry("T", "k", "4");
    assert_eq!(text_of(&unit), "[S]\nk=1\n\n[T]\nk=2\nk=4\n\n");
}

#[test]
fn set_entry_raw_takes_a_literal() {
    let mut unit = SystemdUnit::new();
    unit.append_entry("S", "k", "old");
    unit.set_entry_raw("S", "k", "\\x41 \"b c\"");
    assert_eq!(raws(&unit, "S", "k"), vec!["\\x41 \"b c\""]);
    assert_eq!(unit.lookup_all("S", "k"), vec!["A b c"]);
}

#[test]
fn lookup_all_with_reset_restarts_at_an_empty_value() {
    let mut unit = SystemdUnit::new();
    for v in ["a", "b", "", "c"] {
        unit.append_entry("S", "one", v);
    }
    for v in ["a", "", ""] {
        unit.append_entry("S", "two", v);
    }
    for v in ["a", "b"] {
        unit.append_entry("S", "three", v);
    }
    assert_eq!(unit.lookup_all_with_reset("S", "one"), vec!["c"]);
    assert_eq!(unit.lookup_all_with_reset("S", "two"), Vec::<&str>::new());
    assert_eq!(unit.lookup_all_with_reset("S", "three"), vec!["a", "b"]);
    assert_eq!(unit.lookup_all_with_reset("S", "none"), Vec::<&str>::new());
    assert_eq!(unit.lookup_all_with_reset("None", "one"), Vec::<&str>::new());
}

#[test]
fn rename_section_without_entries_changes_nothing() {
    let mut unit = SystemdUnit::load_from_str("[X]\n[Z]\nk=v\n").unwrap();
    let before = text_of(&unit);
    unit.rename_section("Y", "Z");
    assert_eq!(text_of(&unit), before);
    unit.rename_section("X", "Z");
    assert_eq!(text_of(&unit), before);
    assert_eq!(unit.len(), 2);
}

#[test]
fn rename_section_moves_the_pairs_in_order() {
    let mut unit = SystemdUnit::new();
    unit.append_entry("X", "a", "1");
    unit.append_entry("Y", "b", "2");
    unit.append_entry("X", "c", "3");
    unit.append_entry("X", "a", "4");
    unit.rename_section("X", "Y");
    assert!(!unit.has_section("X"));
    assert_eq!(unit.lookup_all("X", "a"), Vec::<String>::new());
    assert_eq!(unit.len(), 1);
    assert_eq!(text_of(&unit), "[Y]\nb=2\na=1\nc=3\na=4\n\n");
}

#[test]
fn rename_section_creates_the_target() {
    let mut unit = SystemdUnit::new();
    unit.append_entry("X", "a", "1");
    unit.append_entry("W", "w", "0");
    unit.rename_section("X", "New");
    assert_eq!(text_of(&unit), "[W]\nw=0\n\n[New]\na=1\n\n");
    unit.rename_section("W", "W");
    assert_eq!(text_of(&unit), "[New]\na=1\n\n[W]\nw=0\n\n");
}

#[test]
fn reset_and_all_values_of_a_parsed_service() {
    let unit = SystemdUnit::load_from_str(
        "[Service]\nExecStart=/bin/echo hi\nExecStart=\nExecStart=/bin/echo bye\n",
    )
    .unwrap();
    assert_eq!(unit.lookup_all_with_reset("Service", "ExecStart"), vec!["/bin/echo bye"]);
    assert_eq!(
        unit.lookup_all("Service", "ExecStart"),
        vec!["/bin/echo hi", "", "/bin/echo bye"]
    );
}

#[test]
fn line_continuation_stands_for_a_space() {
    let unit = SystemdUnit::load_from_str("[S]\nKey=foo\\\nbar").unwrap();
    assert_eq!(unit.lookup_last("S", "Key"), Some("foo bar".to_string()));
    assert_eq!(raws(&unit, "S", "Key"), vec!["foo bar"]);
}

#[test]
fn has_section_and_has_key_ask_for_entries() {
    let mut unit = SystemdUnit::load_from_str("[Empty]\n[Full]\nk=v\n").unwrap();
    assert!(!unit.has_section("Empty"));
    assert!(unit.has_section("Full"));
    assert!(!unit.has_section("Missing"));
    assert!(unit.has_key("Full", "k"));
    assert!(!unit.has_key("Full", "K"));
    assert!(!unit.has_key("Empty", "k"));
    assert!(!unit.has_key("Missing", "k"));
    assert_eq!(unit.len(), 2);
    unit.append_entry("Empty", "k", "v");
    assert!(unit.has_section("Empty"));
    assert_eq!(unit.len(), 2);
}

#[test]
fn merge_from_appends_and_overwrites_nothing() {
    let mut unit = SystemdUnit::load_from_str("[A]\nk=1\n[B]\nx=y\n").unwrap();
    let other = SystemdUnit::load_from_str("[C]\nc=3\n[A]\nk=2\nj=0\n[Empty]\n").unwrap();
    unit.merge_from(&other);
    assert_eq!(text_of(&unit), "[A]\nk=1\nk=2\nj=0\n\n[B]\nx=y\n\n[C]\nc=3\n\n");
    assert_eq!(unit.lookup_all("A", "k"), vec!["1", "2"]);
    assert_eq!(text_of(&other), "[C]\nc=3\n\n[A]\nk=2\nj=0\n\n[Empty]\n\n");
}

#[test]
fn sections_with_one_name_are_one_section() {
    let unit = SystemdUnit::load_from_str("[A]\nk=1\n[B]\nx=y\n[A]\nk=2\n").unwrap();
    assert_eq!(unit.len(), 2);
    assert_eq!(text_of(&unit), "[A]\nk=1\nk=2\n\n[B]\nx=y\n\n");
}

#[test]
fn section_entries_come_in_order() {
    let unit = SystemdUnit::load_from_str("[S]\na=\\x41\nb=2\na=3\n").unwrap();
    assert_eq!(
        unit.section_entries("S"),
        vec![("a", "A".to_string()), ("b", "2".to_string()), ("a", "3".to_string())]
    );
    let values: Vec<(&str, &str)> = unit
        .section_entry_values("S")
        .into_iter()
        .map(|(k, v)| (k, v.raw().as_str()))
        .collect();
    assert_eq!(values, vec![("a", "\\x41"), ("b", "2"), ("a", "3")]);
    assert_eq!(unit.section_entries("T"), Vec::<(&str, String)>::new());
}

#[test]
fn write_to_appends_to_the_writer() {
    let mut unit = SystemdUnit::new();
    unit.append_entry("Unit", "Description", "a \"test\"\tunit");
    unit.append_entry("Service", "ExecStart", "/bin/true");
    let mut out = String::from("# head\n");
    unit.write_to(&mut out);
    assert_eq!(
        out,
        "# head\n[Unit]\nDescription=a \\\"test\\\"\\tunit\n\n[Service]\nExecStart=/bin/true\n\n"
    );
    assert_eq!(text_of(&SystemdUnit::new()), "");
}

#[test]
fn writing_parsing_and_writing_again_gives_the_same_text() {
    let mut unit = SystemdUnit::new();
    unit.append_entry("Unit", "Description", "a \"test\"\tunit");
    unit.append_entry("Service", "ExecStart", "/bin/echo one two");
    unit.append_entry("Service", "ExecStart", "");
    unit.append_entry("Service", "Environment", "A=b\\c");
    unit.append_entry("Install", "Wanted-By", "multi-user.target");
    unit.append_entry("Service", "ExecStart", "it's");
    let first = text_of(&unit);
    let again = SystemdUnit::load_from_str(&first).unwrap();
    assert_eq!(text_of(&again), first);
}

#[test]
fn a_value_that_starts_with_a_blank_does_not_come_back() {
    let unit = SystemdUnit::load_from_str("[S]\nk=\\\nx").unwrap();
    let first = text_of(&unit);
    assert_eq!(first, "[S]\nk= x\n\n");
    let again = SystemdUnit::load_from_str(&first).unwrap();
    assert_eq!(text_of(&again), "[S]\nk=x\n\n");
}

#[test]
fn new_unit_is_empty() {
    let unit = SystemdUnit::new();
    assert_eq!(unit.len(), 0);
    assert_eq!(unit.path(), &None);
    assert!(!unit.has_section("Unit"));
}

#[test]
fn entry_value_keeps_literal_and_logical() {
    let v = EntryValue::from_unquoted("a\tb");
    assert_eq!(v.raw(), "a\\tb");
    assert_eq!(v.unquoted(), "a\tb");
    assert_eq!(v.unquote(), "a\tb");
    assert_eq!(v.try_unquote(), Ok("a\tb".to_string()));

    let w = EntryValue::try_from_raw("\\x41 'b c'").unwrap();
    assert_eq!(w.raw(), "\\x41 'b c'");
    assert_eq!(w.unquoted(), "A b c");
    assert_eq!(w.clone(), w);

    assert!(matches!(EntryValue::try_from_raw("bad\\"), Err(Error::Unquoting(_))));

    let odd = EntryValue::from_unquoted("'a");
    assert_eq!(odd.unquoted(), "'a");
    assert_eq!(odd.unquote(), "a");
    assert!(EntryValue::from_unquoted("\u{0}").try_unquote().is_err());
}

#[test]
fn to_bool_trims_and_reads_a_word() {
    assert_eq!(EntryValue::from_unquoted("yes").to_bool(), Ok(true));
    assert_eq!(EntryValue::from_unquoted("off").to_bool(), Ok(false));
    assert_eq!(EntryValue::from_unquoted("").to_bool(), Ok(false));
    assert_eq!(EntryValue::from_unquoted("   ").to_bool(), Ok(false));
    assert_eq!(EntryValue::try_from_raw("  true \u{a0}").unwrap().to_bool(), Ok(true));
    assert_eq!(EntryValue::from_unquoted("Yes").to_bool(), Err(Error::ParseBool));
    assert_eq!(EntryValue::from_unquoted("y e s").to_bool(), Err(Error::ParseBool));
    // the literal is read, not the logical string
    assert_eq!(EntryValue::from_unquoted("\t").to_bool(), Err(Error::ParseBool));
    assert_eq!(EntryValue::try_from_raw("\\x31").unwrap().to_bool(), Err(Error::ParseBool));
}

#[test]
fn parse_bool_knows_eight_words() {
    for w in ["1", "yes", "true", "on"] {
        assert_eq!(parse_bool(w), Ok(true));
    }
    for w in ["0", "no", "false", "off"] {
        assert_eq!(parse_bool(w), Ok(false));
    }
    for w in ["", " yes", "yes ", "YES", "True", "2", "y", "enable"] {
        assert_eq!(parse_bool(w), Err(Error::ParseBool));
    }
    assert_eq!(
        Error::ParseBool.to_string(),
        "value must be one of `1`, `yes`, `true`, `on`, `0`, `no`, `false`, `off`"
    );
}
