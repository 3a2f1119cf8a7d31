//! The sectioned `key=value` grammar: what parses, what is rejected, and
//! what serialization writes.

use confmerge::ini::{parse_ini, serialize_ini, Section};

fn sec(name: &str, entries: &[(&str, &str)]) -> Section {
    Section {
        name: name.as_bytes().to_vec(),
        entries: entries
            .iter()
            .map(|(k, v)| (k.as_bytes().to_vec(), v.as_bytes().to_vec()))
            .collect(),
    }
}

#[test]
fn parse_empty_input_is_empty_document() {
    let secs = parse_ini(b"").unwrap();
    assert!(secs.is_empty());
}

#[test]
fn parse_single_section() {
    let secs = parse_ini(b"[a]\nk=1\n").unwrap();
    assert_eq!(secs, vec![sec("a", &[("k", "1")])]);
}

#[test]
fn parse_two_sections_in_order() {
    let secs = parse_ini(b"[a]\nk=1\n[b]\nm=3\nn=4\n").unwrap();
    assert_eq!(secs, vec![sec("a", &[("k", "1")]), sec("b", &[("m", "3"), ("n", "4")])]);
}

#[test]
fn parse_skips_blank_and_comment_lines() {
    let secs = parse_ini(b"\n; note\n[a]\n# note\n\nk=1\n").unwrap();
    assert_eq!(secs, vec![sec("a", &[("k", "1")])]);
}

#[test]
fn parse_section_with_no_entries() {
    let secs = parse_ini(b"[empty]\n").unwrap();
    assert_eq!(secs, vec![sec("empty", &[])]);
}

#[test]
fn parse_value_may_hold_equals_signs() {
    let secs = parse_ini(b"[a]\nk=v=w\n").unwrap();
    assert_eq!(secs, vec![sec("a", &[("k", "v=w")])]);
}

#[test]
fn parse_final_line_needs_no_newline() {
    let secs = parse_ini(b"[a]\nk=1").unwrap();
    assert_eq!(secs, vec![sec("a", &[("k", "1")])]);
}

#[test]
fn parse_keeps_empty_values() {
    let secs = parse_ini(b"[a]\nk=\n").unwrap();
    assert_eq!(secs, vec![sec("a", &[("k", "")])]);
    assert_eq!(serialize_ini(&secs), b"[a]\nk=\n".to_vec());
}

#[test]
fn parse_keeps_empty_keys() {
    // A line starting with `=` carries the empty key.
    let secs = parse_ini(b"[a]\n=v\n").unwrap();
    assert_eq!(secs, vec![sec("a", &[("", "v")])]);
    assert_eq!(serialize_ini(&secs), b"[a]\n=v\n".to_vec());
}

#[test]
fn parse_rejects_unterminated_header() {
    assert!(parse_ini(b"[a\nk=1\n").is_err());
}

#[test]
fn parse_rejects_line_without_equals() {
    assert!(parse_ini(b"[a]\nkey\n").is_err());
}

#[test]
fn parse_rejects_key_before_any_section() {
    assert!(parse_ini(b"k=1\n[a]\n").is_err());
}

#[test]
fn parse_rejects_duplicate_section_name() {
    assert!(parse_ini(b"[a]\nk=1\n[a]\nm=2\n").is_err());
}

#[test]
fn parse_rejects_duplicate_key_in_section() {
    assert!(parse_ini(b"[a]\nk=1\nk=2\n").is_err());
}

#[test]
fn serialize_writes_exact_lines() {
    let doc = vec![sec("a", &[("k", "1")]), sec("b", &[("m", "3")])];
    assert_eq!(serialize_ini(&doc), b"[a]\nk=1\n[b]\nm=3\n".to_vec());
}

#[test]
fn serialize_empty_document_is_empty() {
    assert_eq!(serialize_ini(&vec![]), Vec::<u8>::new());
}

#[test]
fn round_trip_document_through_bytes() {
    let doc = vec![sec("a", &[("k", "1"), ("x", "9")]), sec("b", &[]), sec("c", &[("z", "=")])];
    let bytes = serialize_ini(&doc);
    let back = parse_ini(&bytes).unwrap();
    assert_eq!(back, doc);
}

#[test]
fn round_trip_bytes_through_document() {
    let text = b"[a]\nk=1\n[b]\nm=3\n".to_vec();
    let doc = parse_ini(&text).unwrap();
    assert_eq!(serialize_ini(&doc), text);
}
