use std::path::PathBuf;
use std::str::FromStr;

use systemd_unit::{EntryValue, Error, SystemdUnit};

#[test]
fn values_come_from_logical_strings() {
    let a = EntryValue::from("a b\tc");
    let b = EntryValue::from(String::from("a b\tc"));
    let c: EntryValue = "a b\tc".into();
    assert_eq!(a, EntryValue::from_unquoted("a b\tc"));
    assert_eq!(a, b);
    assert_eq!(a, c);
    assert_eq!(a.raw(), "a b\\tc");
}

#[test]
fn values_are_parsed_from_literals() {
    let v = EntryValue::from_str("\\x41").unwrap();
    assert_eq!(v.raw(), "\\x41");
    assert_eq!(v.unquoted(), "A");
    let w: EntryValue = "'q r'".parse().unwrap();
    assert_eq!(w.unquoted(), "q r");
    let e = EntryValue::from_str("\\").unwrap_err();
    assert_eq!(
        e,
        Error::Unquoting("expecting escape sequence, but found EOF.".to_string())
    );
}

#[test]
fn values_are_equal_when_both_forms_are() {
    let plain = EntryValue::from_unquoted("A");
    let escaped = EntryValue::try_from_raw("\\x41").unwrap();
    assert_eq!(plain.unquoted(), escaped.unquoted());
    assert_ne!(plain, escaped);
    assert_eq!(escaped, escaped.clone());
    assert_eq!(EntryValue::default(), EntryValue::from_unquoted(""));
    assert_eq!(EntryValue::default().raw(), "");
}

#[test]
fn errors_are_equal_when_kind_and_text_are() {
    assert_eq!(Error::ParseBool, Error::ParseBool);
    assert_ne!(Error::ParseBool, Error::Unquoting(String::new()));
    assert_ne!(Error::Unquoting("a".to_string()), Error::Unquoting("b".to_string()));
    let a = SystemdUnit::load_from_str("[a").unwrap_err();
    let b = SystemdUnit::load_from_str("[b").unwrap_err();
    let c = SystemdUnit::load_from_str("[bc").unwrap_err();
    assert_eq!(a, b);
    assert_ne!(a, c);
}

#[test]
fn documents_are_equal_when_path_and_pairs_are() {
    let mut a = SystemdUnit::load_from_str("[S]\nk=v\n").unwrap();
    let mut b = SystemdUnit::new();
    b.append_entry("S", "k", "v");
    assert_eq!(a, b);
    b.path = Some(PathBuf::from("/etc/systemd/system/a.service"));
    assert_ne!(a, b);
    assert_eq!(b.path(), &Some(PathBuf::from("/etc/systemd/system/a.service")));
    a.path = b.path.clone();
    assert_eq!(a, b);
    a.append_entry("S", "k", "v");
    assert_ne!(a, b);
}
