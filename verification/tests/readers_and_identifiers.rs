use sam::identifiers::Identifier;
use sam::readers::read_choices;

#[test]
fn choices_with_and_without_descriptions() {
    let got = read_choices("val1\tval1 description\nval2\n");
    assert_eq!(got.len(), 2);
    assert_eq!(got[0].value(), "val1");
    assert_eq!(got[0].desc(), &Some("val1 description".to_string()));
    assert_eq!(got[1].value(), "val2");
    assert_eq!(got[1].desc(), &None);
}

#[test]
fn lines_without_a_value_are_ignored() {
    let got = read_choices("\n\tonly a description\nreal\n\n");
    assert_eq!(got.len(), 1);
    assert_eq!(got[0].value(), "real");
}

#[test]
fn text_after_a_second_tab_is_dropped() {
    let got = read_choices("a\tb\tc\n");
    assert_eq!(got.len(), 1);
    assert_eq!(got[0].value(), "a");
    assert_eq!(got[0].desc(), &Some("b".to_string()));
}

#[test]
fn carriage_returns_are_stripped() {
    let got = read_choices("one\r\ntwo\tdesc\r\n");
    assert_eq!(got.len(), 2);
    assert_eq!(got[0].value(), "one");
    assert_eq!(got[1].value(), "two");
    assert_eq!(got[1].desc(), &Some("desc".to_string()));
}

#[test]
fn last_line_without_newline_counts() {
    let got = read_choices("a\nb");
    assert_eq!(got.len(), 2);
    assert_eq!(got[1].value(), "b");
}

#[test]
fn empty_stream_yields_no_choices() {
    assert_eq!(read_choices("").len(), 0);
}

#[test]
fn plain_name_parses() {
    let id = Identifier::parse("toto", None).unwrap();
    assert_eq!(id.name(), "toto");
    assert_eq!(id.namespace, None);
}

#[test]
fn namespaced_name_parses() {
    let id = Identifier::parse("ns::toto", None).unwrap();
    assert_eq!(id.name(), "toto");
    assert_eq!(id.namespace, Some("ns".to_string()));
}

#[test]
fn default_namespace_applies_only_without_one() {
    let dirs = "dirs".to_string();
    let id = Identifier::parse("toto", Some(&dirs)).unwrap();
    assert_eq!(id.namespace, Some("dirs".to_string()));
    let id2 = Identifier::parse("ns::toto", Some(&dirs)).unwrap();
    assert_eq!(id2.namespace, Some("ns".to_string()));
}

#[test]
fn lexical_errors_are_rejected() {
    assert!(Identifier::parse("", None).is_none());
    assert!(Identifier::parse("a::b::c", None).is_none());
    assert!(Identifier::parse("::x", None).is_none());
    assert!(Identifier::parse("a::", None).is_none());
    assert!(Identifier::parse("a b", None).is_none());
    assert!(Identifier::parse("a:b", None).is_none());
}

#[test]
fn identifier_equality_considers_both_parts() {
    let a = Identifier::with_namespace("x".to_string(), None);
    let b = Identifier::with_namespace("x".to_string(), Some("ns".to_string()));
    let c = Identifier::with_namespace("x".to_string(), Some("ns".to_string()));
    assert!(!a.is_same(&b));
    assert!(b.is_same(&c));
    assert!(a.is_same(&a.duplicate()));
}
