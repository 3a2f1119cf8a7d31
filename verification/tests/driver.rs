//! Documents, the format gate, and the driver's fold over a patch list.

use confmerge::document::{Data, File};
use confmerge::driver::{get_patch_format, merge_patches};
use confmerge::format::{all_formats, Format};

fn load(path: &str, text: &[u8]) -> File {
    File::load(path.to_string(), text).unwrap()
}

#[test]
fn registry_lists_the_known_formats_in_order() {
    assert_eq!(all_formats(), vec![Format::Ini]);
}

#[test]
fn load_auto_detects_the_format() {
    let f = load("conf.ini", b"[a]\nk=1\n");
    assert_eq!(f.data.format(), Format::Ini);
    assert_eq!(f.path, "conf.ini".to_string());
}

#[test]
fn load_refuses_text_no_format_accepts() {
    assert!(File::load("conf.ini".to_string(), b"no equals sign here").is_err());
}

#[test]
fn load_as_refuses_invalid_syntax() {
    assert!(File::load_as("t.ini".to_string(), b"[open\n", &Format::Ini).is_err());
}

#[test]
fn load_as_does_not_skip_a_failing_format() {
    // Strict loading fails where auto-detection would fail too; both report
    // the one registered grammar's verdict.
    let text = b"[a]\nbroken line\n";
    assert!(File::load_as("t".to_string(), text, &Format::Ini).is_err());
    assert!(File::load("t".to_string(), text).is_err());
}

#[test]
fn documents_of_one_format_are_compatible() {
    let a = load("a", b"[x]\nk=1\n");
    let b = load("b", b"[y]\nm=2\n");
    assert!(a.compatible(&b));
    assert!(b.compatible(&a));
    assert!(a.data.compatible(&b.data));
}

#[test]
fn patch_format_of_a_uniform_list() {
    let patches = vec![load("p1", b"[a]\nk=1\n"), load("p2", b"[b]\nm=2\n")];
    assert_eq!(get_patch_format(&patches), Ok(Format::Ini));
}

#[test]
fn merge_patches_applies_in_input_order() {
    let mut target = load("t", b"[s]\nk=0\nkeep=1\n");
    let patches = vec![load("p1", b"[s]\nk=first\n"), load("p2", b"[s]\nk=second\n")];
    assert!(merge_patches(&mut target, &patches).is_ok());
    let (path, bytes) = target.save();
    assert_eq!(path, "t".to_string());
    assert_eq!(bytes, b"[s]\nk=second\nkeep=1\n".to_vec());
}

#[test]
fn empty_target_takes_exactly_one_patch() {
    // A just-created target file is empty; an empty file is a valid empty
    // document, and merging one patch leaves exactly that patch's content.
    let mut target = File::load_as("t".to_string(), b"", &Format::Ini).unwrap();
    let patches = vec![load("p", b"[a]\nk=v\n")];
    assert!(merge_patches(&mut target, &patches).is_ok());
    let (_, bytes) = target.save();
    assert_eq!(bytes, b"[a]\nk=v\n".to_vec());
}

#[test]
fn save_then_load_reproduces_the_document() {
    let original = load("t", b"[a]\nk=1\n[b]\n\n# c\nm=3\n");
    let kept = original.data.clone();
    let (path, bytes) = original.save();
    let back = File::load_as(path, &bytes, &Format::Ini).unwrap();
    assert_eq!(back.data, kept);
}

#[test]
fn file_apply_merges_one_patch() {
    let mut target = load("t", b"[a]\nk=1\n");
    let patch = load("p", b"[a]\nk=2\n[b]\nm=3\n");
    target.apply(&patch);
    let (_, bytes) = target.save();
    assert_eq!(bytes, b"[a]\nk=2\n[b]\nm=3\n".to_vec());
}

#[test]
fn data_apply_is_idempotent() {
    let patch = load("p", b"[a]\nk=2\n").data;
    let mut once = load("t", b"[a]\nk=1\nx=9\n").data;
    once.apply(&patch);
    let mut twice = once.clone();
    twice.apply(&patch);
    assert_eq!(twice, once);
}

#[test]
fn data_save_writes_the_grammar() {
    let f = load("t", b"[a]\nk=1\n");
    assert_eq!(f.data.save(), b"[a]\nk=1\n".to_vec());
}
