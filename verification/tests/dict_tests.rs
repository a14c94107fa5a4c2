//! Tests of the Top DICT entry codec.

use cff_codec::dict::{decode_entries, encode_entries, entry_is_valid, DictNumber, Entry, RawEntry, StringId};
use cff_codec::error::CffError;

#[test]
fn decode_simple_entries() {
    // Operand 0 (encoded 139) then operator 0: Version with string id 0.
    let bytes = [139u8, 0];
    let entries = decode_entries(&bytes).unwrap();
    assert_eq!(entries, vec![Entry::Version(StringId(0))]);
}

#[test]
fn decode_encode_roundtrip_all_variants() {
    let entries = vec![
        Entry::Version(StringId(391)),
        Entry::Notice(StringId(392)),
        Entry::FullName(StringId(0)),
        Entry::FamilyName(StringId(390)),
        Entry::Weight(StringId(4)),
        Entry::Copyright(StringId(65535)),
        Entry::FontName(StringId(400)),
        Entry::FontBbox(vec![
            DictNumber::Int(-100),
            DictNumber::Int(-200),
            DictNumber::Int(1000),
            DictNumber::Int(1200),
        ]),
        Entry::FontMatrix(vec![
            DictNumber::Real(vec![0x0a, 0x00, 0x1f]),
            DictNumber::Int(0),
            DictNumber::Int(0),
            DictNumber::Real(vec![0x0a, 0x00, 0x1f]),
            DictNumber::Int(0),
            DictNumber::Int(0),
        ]),
        Entry::ItalicAngle(DictNumber::Int(-12)),
        Entry::UnderlinePosition(DictNumber::Int(-100)),
        Entry::UnderlineThickness(DictNumber::Int(50)),
        Entry::StrokeWidth(DictNumber::Real(vec![0x2a, 0x5f])),
        Entry::IsFixedPitch(true),
        Entry::PaintType(0),
        Entry::CharstringType(2),
        Entry::UniqueId(123456),
        Entry::CharstringsOffset(4078),
        Entry::Charset(1146),
        Entry::Encoding(0),
        Entry::PrivateDictRange {
            size: 45,
            offset: 5676,
        },
        Entry::FdArrayOffset(7000),
        Entry::FdSelectOffset(8000),
        Entry::VariationStoreOffset(16),
        Entry::Raw(RawEntry {
            operator: 14,
            operands: vec![DictNumber::Int(1), DictNumber::Int(2)],
        }),
        Entry::Raw(RawEntry {
            operator: 3072 + 30,
            operands: vec![
                DictNumber::Int(391),
                DictNumber::Int(392),
                DictNumber::Int(0),
            ],
        }),
    ];
    for e in &entries {
        assert!(entry_is_valid(e), "entry {:?} should be valid", e);
    }
    let bytes = encode_entries(&entries).unwrap();
    let decoded = decode_entries(&bytes).unwrap();
    assert_eq!(decoded, entries);
    // Decoding is idempotent across a second round trip.
    let bytes2 = encode_entries(&decoded).unwrap();
    assert_eq!(bytes2, bytes);
}

#[test]
fn minimal_integer_encodings() {
    // Each integer operand uses the smallest of the five encodings.
    let cases: Vec<(i32, Vec<u8>)> = vec![
        (0, vec![139]),
        (107, vec![246]),
        (-107, vec![32]),
        (108, vec![247, 0]),
        (1131, vec![250, 255]),
        (-108, vec![251, 0]),
        (-1131, vec![254, 255]),
        (1132, vec![28, 0x04, 0x6C]),
        (-32768, vec![28, 0x80, 0x00]),
        (32767, vec![28, 0x7F, 0xFF]),
        (32768, vec![29, 0x00, 0x00, 0x80, 0x00]),
        (-32769, vec![29, 0xFF, 0xFF, 0x7F, 0xFF]),
        (i32::MAX, vec![29, 0x7F, 0xFF, 0xFF, 0xFF]),
        (i32::MIN, vec![29, 0x80, 0x00, 0x00, 0x00]),
    ];
    for (value, operand_bytes) in cases {
        let entries = vec![Entry::UniqueId(value)];
        let mut expected = operand_bytes.clone();
        expected.push(13);
        let encoded = encode_entries(&entries).unwrap();
        assert_eq!(encoded, expected, "encoding of {}", value);
        assert_eq!(decode_entries(&encoded).unwrap(), entries);
    }
}

#[test]
fn real_operand_preserved_exactly() {
    // A real number: marker 0x1e, then nibbles up to the 0xF terminator.
    let bytes = [0x1e, 0x2a, 0x5f, 12, 3];
    let entries = decode_entries(&bytes).unwrap();
    assert_eq!(
        entries,
        vec![Entry::UnderlinePosition(DictNumber::Real(vec![0x2a, 0x5f]))]
    );
    assert_eq!(encode_entries(&entries).unwrap(), bytes.to_vec());
}

#[test]
fn unknown_operators_are_preserved_raw() {
    // Operator 22 is not part of the Top DICT's closed set.
    let bytes = [140u8, 22];
    let entries = decode_entries(&bytes).unwrap();
    assert_eq!(
        entries,
        vec![Entry::Raw(RawEntry {
            operator: 22,
            operands: vec![DictNumber::Int(1)],
        })]
    );
    assert_eq!(encode_entries(&entries).unwrap(), bytes.to_vec());
}

#[test]
fn duplicate_operators_decode_in_order() {
    // Two Version entries: both are kept in stream order; projection to the
    // structured view applies last-wins separately.
    let bytes = [139u8, 0, 140, 0];
    let entries = decode_entries(&bytes).unwrap();
    assert_eq!(
        entries,
        vec![Entry::Version(StringId(0)), Entry::Version(StringId(1))]
    );
}

#[test]
fn decode_errors() {
    // Trailing operand without an operator.
    assert_eq!(
        decode_entries(&[139]).unwrap_err(),
        CffError::MalformedDictOperand
    );
    // Wrong operand count for a string-valued operator.
    assert_eq!(
        decode_entries(&[139, 140, 0]).unwrap_err(),
        CffError::MalformedDictOperand
    );
    // Operand out of the string identifier range.
    assert_eq!(
        decode_entries(&[29, 0x00, 0x01, 0x00, 0x00, 0]).unwrap_err(),
        CffError::MalformedDictOperand
    );
    // Truncated two-byte integer operand.
    assert_eq!(
        decode_entries(&[28, 0x01]).unwrap_err(),
        CffError::MalformedDictOperand
    );
    // Real number without a terminator nibble.
    assert_eq!(
        decode_entries(&[0x1e, 0x12]).unwrap_err(),
        CffError::MalformedDictOperand
    );
    // Escape byte at the end of the stream.
    assert_eq!(
        decode_entries(&[139, 12]).unwrap_err(),
        CffError::MalformedDictOperand
    );
    // A negative offset operand.
    assert_eq!(
        decode_entries(&[138, 17]).unwrap_err(),
        CffError::MalformedDictOperand
    );
    // FontBbox with only three operands.
    assert_eq!(
        decode_entries(&[139, 139, 139, 5]).unwrap_err(),
        CffError::MalformedDictOperand
    );
}

#[test]
fn encode_rejects_invalid_entries() {
    // A raw entry whose operator collides with an operand byte cannot be
    // represented in a stream.
    let bad = Entry::Raw(RawEntry {
        operator: 28,
        operands: vec![],
    });
    assert!(!entry_is_valid(&bad));
    assert_eq!(
        encode_entries(&vec![bad]).unwrap_err(),
        CffError::MalformedDictOperand
    );
    // A real stored without its terminator nibble.
    let bad_real = Entry::StrokeWidth(DictNumber::Real(vec![0x12]));
    assert!(!entry_is_valid(&bad_real));
    // An offset beyond the integer operand range.
    let bad_offset = Entry::CharstringsOffset(0x8000_0000);
    assert!(!entry_is_valid(&bad_offset));
}

#[test]
fn empty_dict_decodes_to_no_entries() {
    let entries = decode_entries(&[]).unwrap();
    assert_eq!(entries, Vec::<Entry>::new());
    assert_eq!(encode_entries(&entries).unwrap(), Vec::<u8>::new());
}
