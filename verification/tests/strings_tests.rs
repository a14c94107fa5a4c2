//! Tests of the String Table: standard strings, resolution, allocation.

use cff_codec::dict::StringId;
use cff_codec::error::CffError;
use cff_codec::index::Index;
use cff_codec::strings::{allocate, resolve, resolve_bytes, standard_string, STANDARD_STRING_COUNT};

fn custom_strings(items: &[&str]) -> Index {
    let elements: Vec<Vec<u8>> = items.iter().map(|s| s.as_bytes().to_vec()).collect();
    Index::from_elements(&elements).unwrap()
}

#[test]
fn standard_strings_table_values() {
    assert_eq!(STANDARD_STRING_COUNT, 391);
    assert_eq!(standard_string(0), ".notdef");
    assert_eq!(standard_string(1), "space");
    assert_eq!(standard_string(2), "exclam");
    assert_eq!(standard_string(3), "quotedbl");
    assert_eq!(standard_string(34), "A");
    assert_eq!(standard_string(66), "a");
    assert_eq!(standard_string(229), "exclamsmall");
    assert_eq!(standard_string(379), "001.000");
    assert_eq!(standard_string(383), "Black");
    assert_eq!(standard_string(389), "Roman");
    assert_eq!(standard_string(390), "Semibold");
}

#[test]
fn resolution_boundary() {
    let strings = custom_strings(&["2.9", "Noto Serif Display"]);
    // Identifier 390 is the 391st (0-indexed 390th) standard string.
    assert_eq!(resolve(&strings, StringId(390)).unwrap(), "Semibold");
    // Identifier 391 is the first custom string.
    assert_eq!(resolve(&strings, StringId(391)).unwrap(), "2.9");
    assert_eq!(
        resolve(&strings, StringId(392)).unwrap(),
        "Noto Serif Display"
    );
    // Identifier 391 + count fails resolution rather than indexing out of
    // bounds.
    assert_eq!(
        resolve(&strings, StringId(393)).unwrap_err(),
        CffError::UnknownStringId
    );
    assert_eq!(
        resolve(&strings, StringId(65535)).unwrap_err(),
        CffError::UnknownStringId
    );
}

#[test]
fn resolve_bytes_matches_resolve() {
    let strings = custom_strings(&["2.9"]);
    assert_eq!(
        resolve_bytes(&strings, StringId(1)).unwrap(),
        b"space".to_vec()
    );
    assert_eq!(
        resolve_bytes(&strings, StringId(391)).unwrap(),
        b"2.9".to_vec()
    );
    assert_eq!(
        resolve_bytes(&strings, StringId(392)).unwrap_err(),
        CffError::UnknownStringId
    );
}

#[test]
fn resolve_non_utf8_custom_string() {
    // Custom strings are byte strings; invalid UTF-8 resolves through a
    // lossy conversion rather than failing, so the byte 0xFF becomes the
    // replacement character rather than coming back unchanged.
    let strings = Index::from_elements(&vec![vec![0xFFu8, b'a']]).unwrap();
    let text = resolve(&strings, StringId(391)).unwrap();
    assert_eq!(text, "\u{FFFD}a");
    assert_eq!(
        resolve_bytes(&strings, StringId(391)).unwrap(),
        vec![0xFFu8, b'a']
    );
}

#[test]
fn allocate_finds_standard_string() {
    let mut strings = custom_strings(&["2.9"]);
    let before = strings.clone();
    let id = allocate(&mut strings, &b"space".to_vec()).unwrap();
    assert_eq!(id, StringId(1));
    let id2 = allocate(&mut strings, &b".notdef".to_vec()).unwrap();
    assert_eq!(id2, StringId(0));
    let id3 = allocate(&mut strings, &b"Semibold".to_vec()).unwrap();
    assert_eq!(id3, StringId(390));
    assert_eq!(strings, before, "standard matches must not grow the table");
}

#[test]
fn allocate_finds_existing_custom_string() {
    let mut strings = custom_strings(&["2.9", "Noto Serif Display"]);
    let before = strings.clone();
    let id = allocate(&mut strings, &b"Noto Serif Display".to_vec()).unwrap();
    assert_eq!(id, StringId(392));
    assert_eq!(strings, before, "existing matches must not grow the table");
}

#[test]
fn allocate_appends_new_string() {
    let mut strings = custom_strings(&["2.9"]);
    let id = allocate(&mut strings, &b"Version 1.23".to_vec()).unwrap();
    // The new identifier is 391 plus the old custom count.
    assert_eq!(id, StringId(392));
    assert_eq!(strings.count, 2);
    assert_eq!(
        resolve(&strings, StringId(392)).unwrap(),
        "Version 1.23"
    );
    // Allocating the same text again de-duplicates instead of growing.
    let id2 = allocate(&mut strings, &b"Version 1.23".to_vec()).unwrap();
    assert_eq!(id2, StringId(392));
    assert_eq!(strings.count, 2);
}
