//! The merge itself: overwriting, extending, ordering, idempotence, and
//! what is left untouched.

use confmerge::apply::apply_sections;
use confmerge::ini::{parse_ini, serialize_ini, Section};

fn doc(text: &[u8]) -> Vec<Section> {
    parse_ini(text).unwrap()
}

#[test]
fn merge_overwrites_and_extends() {
    // The patch replaces an existing value and brings a whole new section.
    let mut target = doc(b"[a]\nk=1\n");
    let patch = doc(b"[a]\nk=2\n[b]\nm=3\n");
    apply_sections(&mut target, &patch);
    assert_eq!(serialize_ini(&target), b"[a]\nk=2\n[b]\nm=3\n".to_vec());
}

#[test]
fn merge_creates_missing_key_in_existing_section() {
    let mut target = doc(b"[a]\nk=1\n");
    let patch = doc(b"[a]\nx=9\n");
    apply_sections(&mut target, &patch);
    assert_eq!(serialize_ini(&target), b"[a]\nk=1\nx=9\n".to_vec());
}

#[test]
fn merge_is_idempotent() {
    let mut once = doc(b"[a]\nk=1\nx=9\n[c]\nz=5\n");
    let patch = doc(b"[a]\nk=2\n[b]\nm=3\n");
    apply_sections(&mut once, &patch);
    let mut twice = once.clone();
    apply_sections(&mut twice, &patch);
    assert_eq!(twice, once);
}

#[test]
fn merge_order_matters_for_shared_keys() {
    // Applying A then B and B then A must differ: the last write wins.
    let a = doc(b"[s]\nk=from_a\n");
    let b = doc(b"[s]\nk=from_b\n");

    let mut ab = doc(b"[s]\nk=0\n");
    apply_sections(&mut ab, &a);
    apply_sections(&mut ab, &b);

    let mut ba = doc(b"[s]\nk=0\n");
    apply_sections(&mut ba, &b);
    apply_sections(&mut ba, &a);

    assert_ne!(ab, ba);
    assert_eq!(serialize_ini(&ab), b"[s]\nk=from_b\n".to_vec());
    assert_eq!(serialize_ini(&ba), b"[s]\nk=from_a\n".to_vec());
}

#[test]
fn merge_leaves_untouched_sections_and_keys_alone() {
    let mut target = doc(b"[a]\nk=1\nx=9\n[c]\nz=5\n");
    let patch = doc(b"[a]\nk=2\n");
    apply_sections(&mut target, &patch);
    // `a.x` and the whole `[c]` section keep their values and places.
    assert_eq!(serialize_ini(&target), b"[a]\nk=2\nx=9\n[c]\nz=5\n".to_vec());
}

#[test]
fn merge_of_empty_patch_changes_nothing() {
    let mut target = doc(b"[a]\nk=1\n");
    let patch = doc(b"");
    apply_sections(&mut target, &patch);
    assert_eq!(serialize_ini(&target), b"[a]\nk=1\n".to_vec());
}
