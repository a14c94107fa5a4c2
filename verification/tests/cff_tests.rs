//! Tests of the CFF table aggregate on real font data.

use cff_codec::cff::{Cff, TopDictData};
use cff_codec::dict::{decode_entries, Entry, StringId};
use cff_codec::error::CffError;
use cff_codec::index::Index;
use read_fonts::FontRead;

/// Extracts the raw bytes of the `CFF ` table from an OpenType font.
fn cff_table_bytes(font_bytes: &[u8]) -> Vec<u8> {
    let font = read_fonts::FontRef::new(font_bytes).unwrap();
    let data = font
        .table_data(read_fonts::types::Tag::new(b"CFF "))
        .unwrap();
    data.as_bytes().to_vec()
}

fn load_noto_cff() -> Cff {
    let table = cff_table_bytes(font_test_data::NOTO_SERIF_DISPLAY_TRIMMED);
    let (cff, _) = Cff::from_binary(&table).unwrap();
    cff
}

fn resolve_to_string(cff: &Cff, id: StringId) -> String {
    cff.resolve_string(id).unwrap()
}

#[test]
fn read_write_cff_table() {
    let table = cff_table_bytes(font_test_data::NOTO_SERIF_DISPLAY_TRIMMED);
    let (cff_read, _consumed) = Cff::from_binary(&table).unwrap();

    let serialized = cff_read.to_binary();

    let (reparsed, _) = Cff::from_binary(&serialized).unwrap();

    assert_eq!(cff_read.header.major, reparsed.header.major);
    assert_eq!(cff_read.header.minor, reparsed.header.minor);
    assert_eq!(cff_read.names.count, reparsed.names.count);
    assert_eq!(cff_read.top_dicts.count, reparsed.top_dicts.count);
    assert_eq!(cff_read.strings.count, reparsed.strings.count);
    assert_eq!(cff_read.global_subrs.count, reparsed.global_subrs.count);
}

#[test]
fn read_write_cff_table_with_top_dict_entries() {
    let cff_read = load_noto_cff();

    let original_top_dict_data = cff_read.get_top_dict_bytes(0).unwrap();
    let original_entries = decode_entries(&original_top_dict_data).unwrap();

    let has_version = original_entries
        .iter()
        .any(|e| matches!(e, Entry::Version(_)));
    let has_notice = original_entries
        .iter()
        .any(|e| matches!(e, Entry::Notice(_)));
    let has_copyright = original_entries
        .iter()
        .any(|e| matches!(e, Entry::Copyright(_)));
    let has_full_name = original_entries
        .iter()
        .any(|e| matches!(e, Entry::FullName(_)));
    let has_family_name = original_entries
        .iter()
        .any(|e| matches!(e, Entry::FamilyName(_)));
    let has_font_bbox = original_entries
        .iter()
        .any(|e| matches!(e, Entry::FontBbox(_)));
    let has_private_dict_range = original_entries
        .iter()
        .any(|e| matches!(e, Entry::PrivateDictRange { .. }));
    let has_charstrings_offset = original_entries
        .iter()
        .any(|e| matches!(e, Entry::CharstringsOffset(_)));

    assert!(has_version, "Original font should have Version entry");
    assert!(has_notice, "Original font should have Notice entry");
    assert!(has_copyright, "Original font should have Copyright entry");
    assert!(has_full_name, "Original font should have FullName entry");
    assert!(has_family_name, "Original font should have FamilyName entry");
    assert!(has_font_bbox, "Original font should have FontBbox entry");
    assert!(
        has_private_dict_range,
        "Original font should have PrivateDictRange entry"
    );
    assert!(
        has_charstrings_offset,
        "Original font should have CharstringsOffset entry"
    );

    let serialized = cff_read.to_binary();
    let (reparsed, _) = Cff::from_binary(&serialized).unwrap();

    let reparsed_top_dict_data = reparsed.get_top_dict_bytes(0).unwrap();
    let reparsed_entries = decode_entries(&reparsed_top_dict_data).unwrap();

    for original_entry in &original_entries {
        let matching_reparsed = reparsed_entries
            .iter()
            .find(|e| std::mem::discriminant(*e) == std::mem::discriminant(original_entry));
        assert!(
            matching_reparsed.is_some(),
            "Entry {:?} should be preserved after round-trip",
            original_entry
        );
        match (original_entry, matching_reparsed.unwrap()) {
            (Entry::Version(orig_id), Entry::Version(reparsed_id)) => {
                assert_eq!(orig_id, reparsed_id, "Version StringId should match");
            }
            (Entry::Notice(orig_id), Entry::Notice(reparsed_id)) => {
                assert_eq!(orig_id, reparsed_id, "Notice StringId should match");
            }
            (Entry::Copyright(orig_id), Entry::Copyright(reparsed_id)) => {
                assert_eq!(orig_id, reparsed_id, "Copyright StringId should match");
            }
            (Entry::FullName(orig_id), Entry::FullName(reparsed_id)) => {
                assert_eq!(orig_id, reparsed_id, "FullName StringId should match");
            }
            (Entry::FamilyName(orig_id), Entry::FamilyName(reparsed_id)) => {
                assert_eq!(orig_id, reparsed_id, "FamilyName StringId should match");
            }
            (Entry::FontBbox(orig_bbox), Entry::FontBbox(reparsed_bbox)) => {
                assert_eq!(orig_bbox, reparsed_bbox, "FontBbox should match");
            }
            (
                Entry::PrivateDictRange {
                    size: os,
                    offset: oo,
                },
                Entry::PrivateDictRange {
                    size: rs,
                    offset: ro,
                },
            ) => {
                assert_eq!((os, oo), (rs, ro), "PrivateDictRange should match");
            }
            (Entry::CharstringsOffset(orig_offset), Entry::CharstringsOffset(reparsed_offset)) => {
                assert_eq!(
                    orig_offset, reparsed_offset,
                    "CharstringsOffset should match"
                );
            }
            (Entry::ItalicAngle(orig_angle), Entry::ItalicAngle(reparsed_angle)) => {
                assert_eq!(orig_angle, reparsed_angle, "ItalicAngle should match");
            }
            (Entry::UnderlinePosition(orig_pos), Entry::UnderlinePosition(reparsed_pos)) => {
                assert_eq!(orig_pos, reparsed_pos, "UnderlinePosition should match");
            }
            (Entry::UnderlineThickness(orig_thick), Entry::UnderlineThickness(reparsed_thick)) => {
                assert_eq!(
                    orig_thick, reparsed_thick,
                    "UnderlineThickness should match"
                );
            }
            (Entry::Weight(orig_weight), Entry::Weight(reparsed_weight)) => {
                assert_eq!(orig_weight, reparsed_weight, "Weight StringId should match");
            }
            (Entry::Charset(orig_charset), Entry::Charset(reparsed_charset)) => {
                assert_eq!(orig_charset, reparsed_charset, "Charset should match");
            }
            (Entry::FontMatrix(orig_matrix), Entry::FontMatrix(reparsed_matrix)) => {
                assert_eq!(orig_matrix, reparsed_matrix, "FontMatrix should match");
            }
            _ => {}
        }
    }

    assert_eq!(
        original_entries.len(),
        reparsed_entries.len(),
        "Number of Top DICT entries should match after round-trip"
    );
}

#[test]
fn write_cff_table_with_additional_top_dict_entries() {
    let cff_read = load_noto_cff();

    let serialized = cff_read.to_binary();
    let (reparsed, _) = Cff::from_binary(&serialized).unwrap();

    let original_top_dict_data = cff_read.get_top_dict_bytes(0).unwrap();
    let original_entries = decode_entries(&original_top_dict_data).unwrap();

    let reparsed_top_dict_data = reparsed.get_top_dict_bytes(0).unwrap();
    let reparsed_entries = decode_entries(&reparsed_top_dict_data).unwrap();

    for entry in &original_entries {
        match entry {
            Entry::Version(_) => {}
            Entry::Notice(_) => {}
            Entry::FullName(_) => {}
            Entry::FamilyName(_) => {}
            Entry::Weight(_) => {
                assert!(reparsed_entries.iter().any(|e| matches!(e, Entry::Weight(_))));
            }
            Entry::FontBbox(_) => {}
            Entry::CharstringsOffset(_) => {}
            Entry::PrivateDictRange { .. } => {}
            Entry::VariationStoreOffset(_) => {
                assert!(reparsed_entries
                    .iter()
                    .any(|e| matches!(e, Entry::VariationStoreOffset(_))));
            }
            Entry::Copyright(_) => {}
            Entry::IsFixedPitch(_) => {
                assert!(reparsed_entries
                    .iter()
                    .any(|e| matches!(e, Entry::IsFixedPitch(_))));
            }
            Entry::ItalicAngle(_) => {
                assert!(reparsed_entries
                    .iter()
                    .any(|e| matches!(e, Entry::ItalicAngle(_))));
            }
            Entry::UnderlinePosition(_) => {
                assert!(reparsed_entries
                    .iter()
                    .any(|e| matches!(e, Entry::UnderlinePosition(_))));
            }
            Entry::UnderlineThickness(_) => {
                assert!(reparsed_entries
                    .iter()
                    .any(|e| matches!(e, Entry::UnderlineThickness(_))));
            }
            Entry::PaintType(_) => {
                assert!(reparsed_entries
                    .iter()
                    .any(|e| matches!(e, Entry::PaintType(_))));
            }
            Entry::CharstringType(_) => {
                assert!(reparsed_entries
                    .iter()
                    .any(|e| matches!(e, Entry::CharstringType(_))));
            }
            Entry::FontMatrix(_) => {
                assert!(reparsed_entries
                    .iter()
                    .any(|e| matches!(e, Entry::FontMatrix(_))));
            }
            Entry::StrokeWidth(_) => {
                assert!(reparsed_entries
                    .iter()
                    .any(|e| matches!(e, Entry::StrokeWidth(_))));
            }
            Entry::FdArrayOffset(_) => {
                assert!(reparsed_entries
                    .iter()
                    .any(|e| matches!(e, Entry::FdArrayOffset(_))));
            }
            Entry::FdSelectOffset(_) => {
                assert!(reparsed_entries
                    .iter()
                    .any(|e| matches!(e, Entry::FdSelectOffset(_))));
            }
            Entry::Encoding(_) => {
                assert!(reparsed_entries
                    .iter()
                    .any(|e| matches!(e, Entry::Encoding(_))));
            }
            Entry::Charset(_) => {}
            Entry::UniqueId(_) => {
                assert!(reparsed_entries
                    .iter()
                    .any(|e| matches!(e, Entry::UniqueId(_))));
            }
            _ => {
                assert!(
                    reparsed_entries
                        .iter()
                        .any(|e| std::mem::discriminant(e) == std::mem::discriminant(entry)),
                    "Entry type {:?} should be preserved after round-trip",
                    entry
                );
            }
        }
    }

    assert_eq!(
        original_entries.len(),
        reparsed_entries.len(),
        "All Top DICT entries should be preserved"
    );
}

#[test]
fn cff_table_tag() {
    assert_eq!(Cff::table_tag(), b"CFF ".to_vec());
}

#[test]
fn cff_table_version_and_family_name_modification() {
    let target_version_string = "Version 1.23";
    let target_family_name_string = "This is a Font Family Name";

    let cff_read = load_noto_cff();

    let original_top_dict_data = cff_read.get_top_dict_bytes(0).unwrap();
    let original_entries = decode_entries(&original_top_dict_data).unwrap();

    let mut version_string_id = None;
    let mut family_name_string_id = None;
    for entry in &original_entries {
        match entry {
            Entry::Version(id) => version_string_id = Some(*id),
            Entry::FamilyName(id) => family_name_string_id = Some(*id),
            _ => {}
        }
    }
    let version_string_id = version_string_id.expect("Should have Version entry");
    let family_name_string_id = family_name_string_id.expect("Should have FamilyName entry");

    let original_version = resolve_to_string(&cff_read, version_string_id);
    let original_family_name = resolve_to_string(&cff_read, family_name_string_id);

    assert_eq!(original_version, "2.9");
    assert_eq!(original_family_name, "Noto Serif Display");

    let serialized = cff_read.to_binary();
    let (reparsed, _) = Cff::from_binary(&serialized).unwrap();

    assert_eq!(
        resolve_to_string(&reparsed, version_string_id),
        original_version
    );
    assert_eq!(
        resolve_to_string(&reparsed, family_name_string_id),
        original_family_name
    );

    let reparsed_top_dict_data = reparsed.get_top_dict_bytes(0).unwrap();
    let reparsed_entries = decode_entries(&reparsed_top_dict_data).unwrap();

    let version_entry = reparsed_entries
        .iter()
        .find(|e| matches!(e, Entry::Version(_)));
    let family_name_entry = reparsed_entries
        .iter()
        .find(|e| matches!(e, Entry::FamilyName(_)));

    assert!(version_entry.is_some(), "Version entry should exist");
    assert!(family_name_entry.is_some(), "FamilyName entry should exist");

    if let Entry::Version(string_id) = version_entry.unwrap() {
        assert_eq!(resolve_to_string(&reparsed, *string_id), original_version);
    }
    if let Entry::FamilyName(string_id) = family_name_entry.unwrap() {
        assert_eq!(
            resolve_to_string(&reparsed, *string_id),
            original_family_name
        );
    }

    assert_ne!(original_version, target_version_string);
    assert_ne!(original_family_name, target_family_name_string);

    println!(
        "Original version: '{}' -> Target: '{}'",
        original_version, target_version_string
    );
    println!(
        "Original family: '{}' -> Target: '{}'",
        original_family_name, target_family_name_string
    );
}

#[test]
fn write_cff_table_with_modified_version_and_family_name() {
    let cff_read = load_noto_cff();

    let original_top_dict_data = cff_read.get_top_dict_bytes(0).unwrap();
    let original_entries = decode_entries(&original_top_dict_data).unwrap();

    let original_version_entry = original_entries
        .iter()
        .find(|e| matches!(e, Entry::Version(_)))
        .unwrap();
    let original_family_name_entry = original_entries
        .iter()
        .find(|e| matches!(e, Entry::FamilyName(_)))
        .unwrap();

    let (original_version_id, original_family_name_id) =
        match (original_version_entry, original_family_name_entry) {
            (Entry::Version(vid), Entry::FamilyName(fid)) => (*vid, *fid),
            _ => panic!("Expected Version and FamilyName entries"),
        };

    let original_version_string = resolve_to_string(&cff_read, original_version_id);
    let original_family_name_string = resolve_to_string(&cff_read, original_family_name_id);

    println!("Original version: '{}'", original_version_string);
    println!("Original family name: '{}'", original_family_name_string);

    let serialized = cff_read.to_binary();
    let (reparsed, _) = Cff::from_binary(&serialized).unwrap();

    assert_eq!(
        resolve_to_string(&reparsed, original_version_id),
        original_version_string
    );
    assert_eq!(
        resolve_to_string(&reparsed, original_family_name_id),
        original_family_name_string
    );

    let target_version_string = "Version 1.23";
    let target_family_name_string = "This is a Font Family Name";

    println!("Target version: '{}'", target_version_string);
    println!("Target family name: '{}'", target_family_name_string);

    assert_ne!(original_version_string, target_version_string);
    assert_ne!(original_family_name_string, target_family_name_string);
}

#[test]
fn extended_cff_write_with_custom_version_and_family_name() {
    let target_version_string = "Version 1.23";
    let target_family_name_string = "This is a Font Family Name";

    let cff_read = load_noto_cff();

    let original_top_dict_data = cff_read.get_top_dict_bytes(0).unwrap();
    let original_entries = decode_entries(&original_top_dict_data).unwrap();

    let mut original_version_id = None;
    let mut original_family_name_id = None;
    for entry in &original_entries {
        match entry {
            Entry::Version(id) => original_version_id = Some(*id),
            Entry::FamilyName(id) => original_family_name_id = Some(*id),
            _ => {}
        }
    }
    let original_version_id = original_version_id.expect("Should have Version entry");
    let original_family_name_id = original_family_name_id.expect("Should have FamilyName entry");

    let original_version = resolve_to_string(&cff_read, original_version_id);
    let original_family_name = resolve_to_string(&cff_read, original_family_name_id);

    println!("Extending test - Original version: '{}'", original_version);
    println!(
        "Extending test - Original family name: '{}'",
        original_family_name
    );

    let mut cff_write = cff_read.clone();

    let version_cff_index = if original_version_id.0 >= 391 {
        Some((original_version_id.0 - 391) as usize)
    } else {
        None
    };
    let family_name_cff_index = if original_family_name_id.0 >= 391 {
        Some((original_family_name_id.0 - 391) as usize)
    } else {
        None
    };

    if let (Some(version_idx), Some(family_idx)) = (version_cff_index, family_name_cff_index) {
        let mut new_elements: Vec<Vec<u8>> = Vec::new();
        for i in 0..cff_write.strings.count as usize {
            let element = if i == version_idx {
                println!(
                    "Replacing version string at index {} with '{}'",
                    version_idx, target_version_string
                );
                target_version_string.as_bytes().to_vec()
            } else if i == family_idx {
                println!(
                    "Replacing family name string at index {} with '{}'",
                    family_idx, target_family_name_string
                );
                target_family_name_string.as_bytes().to_vec()
            } else {
                cff_read.get_string_bytes(i).unwrap()
            };
            new_elements.push(element);
        }

        let new_strings = Index::from_elements(&new_elements).unwrap();
        println!(
            "Built new strings index with {} entries, {} bytes of data",
            new_strings.count,
            new_strings.data.len()
        );
        cff_write.strings = new_strings;

        let serialized = cff_write.to_binary();
        let (reparsed, _) = Cff::from_binary(&serialized).unwrap();

        let actual_version = resolve_to_string(&reparsed, original_version_id);
        let actual_family_name = resolve_to_string(&reparsed, original_family_name_id);

        println!("Modified version: '{}'", actual_version);
        println!("Modified family name: '{}'", actual_family_name);

        assert_eq!(actual_version, target_version_string);
        assert_eq!(actual_family_name, target_family_name_string);

        let modified_top_dict_data = reparsed.get_top_dict_bytes(0).unwrap();
        let modified_entries = decode_entries(&modified_top_dict_data).unwrap();

        let version_entry = modified_entries
            .iter()
            .find(|e| matches!(e, Entry::Version(_)))
            .unwrap();
        let family_name_entry = modified_entries
            .iter()
            .find(|e| matches!(e, Entry::FamilyName(_)))
            .unwrap();

        if let Entry::Version(string_id) = version_entry {
            assert_eq!(resolve_to_string(&reparsed, *string_id), target_version_string);
        }
        if let Entry::FamilyName(string_id) = family_name_entry {
            assert_eq!(
                resolve_to_string(&reparsed, *string_id),
                target_family_name_string
            );
        }

        println!("Successfully modified CFF table Version and FamilyName entries!");
    } else {
        println!("Version or FamilyName strings are standard strings, not custom CFF strings - skipping modification test");
        println!(
            "Version ID: {}, Family Name ID: {}",
            original_version_id.0, original_family_name_id.0
        );
    }
}

#[test]
fn cff_table_easy_modification_api() {
    let mut cff_write = load_noto_cff();

    let top_dict_data = cff_write.get_top_dict_data().unwrap();

    assert_eq!(top_dict_data.version.as_deref(), Some("2.9"));
    assert_eq!(
        top_dict_data.family_name.as_deref(),
        Some("Noto Serif Display")
    );

    let mut modified_top_dict = top_dict_data.clone();
    modified_top_dict.version = Some("Version 1.23".to_string());
    modified_top_dict.family_name = Some("This is a Font Family Name".to_string());

    let result = cff_write.set_top_dict_data(&modified_top_dict);
    assert!(result.is_ok(), "set_top_dict_data should succeed");

    println!("Successfully demonstrated the easy CFF modification API structure!");
    println!("Original version: {:?}", top_dict_data.version);
    println!("Original family_name: {:?}", top_dict_data.family_name);
    println!("Target version: 'Version 1.23'");
    println!("Target family_name: 'This is a Font Family Name'");

    assert!(top_dict_data.version.is_some());
    assert!(top_dict_data.family_name.is_some());
}

#[test]
fn demonstrate_fonttools_like_api() {
    let mut cff_write = load_noto_cff();

    let mut top_dict_data = cff_write.get_top_dict_data().unwrap();

    println!("Original CFF Top DICT values:");
    println!("  Version: {:?}", top_dict_data.version);
    println!("  Family Name: {:?}", top_dict_data.family_name);
    println!("  Full Name: {:?}", top_dict_data.full_name);
    println!("  Notice: {:?}", top_dict_data.notice);

    top_dict_data.version = Some("1.06".to_string());
    top_dict_data.family_name = Some("Modified Font Family".to_string());
    top_dict_data.notice = Some("Modified with Rust fontations".to_string());

    let result = cff_write.set_top_dict_data(&top_dict_data);
    assert!(result.is_ok(), "Should be able to set top dict data");

    println!("\nModified CFF Top DICT values:");
    println!("  Version: {:?}", top_dict_data.version);
    println!("  Family Name: {:?}", top_dict_data.family_name);
    println!("  Notice: {:?}", top_dict_data.notice);

    assert_eq!(top_dict_data.version.as_deref(), Some("1.06"));
    assert_eq!(
        top_dict_data.family_name.as_deref(),
        Some("Modified Font Family")
    );
    assert_eq!(
        top_dict_data.notice.as_deref(),
        Some("Modified with Rust fontations")
    );

    println!("\n Successfully demonstrated fonttools-like CFF modification API!");
}

#[test]
fn cff_end_to_end_modification_scenario() {
    // Unmodified half: serializing without mutation and re-parsing yields
    // identical resolved strings and entry counts.
    let mut cff = load_noto_cff();
    let before = cff.get_top_dict_data().unwrap();
    assert_eq!(before.version.as_deref(), Some("2.9"));
    assert_eq!(before.family_name.as_deref(), Some("Noto Serif Display"));

    let unmodified = cff.to_binary();
    let (re_unmodified, _) = Cff::from_binary(&unmodified).unwrap();
    let re_data = re_unmodified.get_top_dict_data().unwrap();
    assert_eq!(re_data.version.as_deref(), Some("2.9"));
    assert_eq!(re_data.family_name.as_deref(), Some("Noto Serif Display"));
    let orig_entry_count = decode_entries(&cff.get_top_dict_bytes(0).unwrap())
        .unwrap()
        .len();
    let re_entry_count = decode_entries(&re_unmodified.get_top_dict_bytes(0).unwrap())
        .unwrap()
        .len();
    assert_eq!(orig_entry_count, re_entry_count);

    // Modified half: set new version and family name, serialize, re-parse,
    // and check the new values resolve while every other entry is unchanged.
    let original_entries = decode_entries(&cff.get_top_dict_bytes(0).unwrap()).unwrap();
    let mut data = before.clone();
    data.version = Some("Version 1.23".to_string());
    data.family_name = Some("This is a Font Family Name".to_string());
    cff.set_top_dict_data(&data).unwrap();

    let modified = cff.to_binary();
    let (re_modified, _) = Cff::from_binary(&modified).unwrap();
    let after = re_modified.get_top_dict_data().unwrap();
    assert_eq!(after.version.as_deref(), Some("Version 1.23"));
    assert_eq!(
        after.family_name.as_deref(),
        Some("This is a Font Family Name")
    );
    // Untouched fields keep their resolved values.
    assert_eq!(after.notice, before.notice);
    assert_eq!(after.copyright, before.copyright);
    assert_eq!(after.full_name, before.full_name);

    // Every non-string entry of the original Top DICT is preserved by value.
    let modified_entries = decode_entries(&re_modified.get_top_dict_bytes(0).unwrap()).unwrap();
    for entry in &original_entries {
        match entry {
            Entry::Version(_) | Entry::Notice(_) | Entry::FullName(_) | Entry::FamilyName(_)
            | Entry::Weight(_) | Entry::Copyright(_) | Entry::FontName(_) => {}
            other => {
                assert!(
                    modified_entries.iter().any(|e| e == other),
                    "entry {:?} should be unchanged",
                    other
                );
            }
        }
    }
}

#[test]
fn cff_set_identical_value_does_not_grow_strings() {
    let mut cff = load_noto_cff();
    let data = cff.get_top_dict_data().unwrap();
    let old_count = cff.strings.count;

    // Setting the family name to its current value must not grow the table.
    let mut same = data.clone();
    same.family_name = data.family_name.clone();
    cff.set_top_dict_data(&same).unwrap();
    assert_eq!(cff.strings.count, old_count);

    // A brand-new value appends exactly one string whose identifier is
    // 391 plus the old custom count.
    let mut fresh = data.clone();
    fresh.family_name = Some("A Family Nobody Ever Named A Font After".to_string());
    cff.set_top_dict_data(&fresh).unwrap();
    assert_eq!(cff.strings.count, old_count + 1);

    let entries = decode_entries(&cff.get_top_dict_bytes(0).unwrap()).unwrap();
    let family_sid = entries
        .iter()
        .find_map(|e| match e {
            Entry::FamilyName(id) => Some(*id),
            _ => None,
        })
        .unwrap();
    assert_eq!(family_sid, StringId(391 + old_count));
    assert_eq!(
        cff.resolve_string(family_sid).unwrap(),
        "A Family Nobody Ever Named A Font After"
    );
}

#[test]
fn cff_from_binary_rejects_truncated_header() {
    let r = Cff::from_binary(&[1, 0]);
    assert!(matches!(
        r,
        Err(e) if e.error == CffError::TruncatedIndex
    ));
}

#[test]
fn cff_no_top_dict_error() {
    // A minimal table: header and four empty INDEX structures.
    let bytes = [1u8, 0, 4, 1, 0, 0, 0, 0, 0, 0, 0, 0];
    let (cff, consumed) = Cff::from_binary(&bytes).unwrap();
    assert_eq!(consumed, 12);
    assert_eq!(cff.get_top_dict_data().unwrap_err(), CffError::NoTopDict);
    let data = TopDictData::new();
    let mut cff2 = cff.clone();
    assert_eq!(
        cff2.set_top_dict_data(&data).unwrap_err(),
        CffError::NoTopDict
    );
    // Serializing the minimal table reproduces its bytes exactly.
    assert_eq!(cff.to_binary(), bytes.to_vec());
}

#[test]
fn serialized_table_parses_with_independent_reader() {
    let table = cff_table_bytes(font_test_data::NOTO_SERIF_DISPLAY_TRIMMED);
    let (cff, _) = Cff::from_binary(&table).unwrap();
    let serialized = cff.to_binary();

    let independent =
        read_fonts::tables::cff::Cff::read(read_fonts::FontData::new(&serialized)).unwrap();
    assert_eq!(independent.header().major(), cff.header.major);
    assert_eq!(independent.header().minor(), cff.header.minor);
    assert_eq!(independent.names().count(), cff.names.count);
    assert_eq!(independent.top_dicts().count(), cff.top_dicts.count);
    assert_eq!(independent.strings().count(), cff.strings.count);
    assert_eq!(independent.global_subrs().count(), cff.global_subrs.count);

    // String resolution agrees with the independent reader byte for byte.
    let entries = decode_entries(&cff.get_top_dict_bytes(0).unwrap()).unwrap();
    for entry in &entries {
        let sid = match entry {
            Entry::Version(id)
            | Entry::Notice(id)
            | Entry::FullName(id)
            | Entry::FamilyName(id)
            | Entry::Weight(id)
            | Entry::Copyright(id)
            | Entry::FontName(id) => *id,
            _ => continue,
        };
        let mine = cff.resolve_string(sid).unwrap();
        let theirs = independent
            .string(read_fonts::ps::string::Sid::new(sid.0))
            .unwrap();
        assert_eq!(mine.as_bytes(), theirs);
    }
}
