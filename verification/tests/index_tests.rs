//! Tests of the INDEX structure and the offset codec.

use cff_codec::error::CffError;
use cff_codec::index::Index;
use cff_codec::offsets::{min_off_size, read_offset, write_offset};

#[test]
fn index_roundtrip_concrete() {
    let idx = Index {
        count: 2,
        off_size: 1,
        offsets: vec![1, 3, 6],
        data: vec![10, 20, 30, 40, 50],
    };
    let bytes = idx.serialize();
    assert_eq!(bytes, vec![0, 2, 1, 1, 3, 6, 10, 20, 30, 40, 50]);
    let (parsed, consumed) = Index::parse(&bytes).unwrap();
    assert_eq!(consumed, bytes.len());
    assert_eq!(parsed, idx);
    assert_eq!(parsed.get(0).unwrap(), vec![10, 20]);
    assert_eq!(parsed.get(1).unwrap(), vec![30, 40, 50]);
}

#[test]
fn index_roundtrip_ignores_trailing_bytes() {
    let idx = Index {
        count: 1,
        off_size: 2,
        offsets: vec![1, 4],
        data: vec![7, 8, 9],
    };
    let mut bytes = idx.serialize();
    assert_eq!(bytes, vec![0, 1, 2, 0, 1, 0, 4, 7, 8, 9]);
    let expected_consumed = bytes.len();
    bytes.push(99);
    bytes.push(100);
    let (parsed, consumed) = Index::parse(&bytes).unwrap();
    assert_eq!(consumed, expected_consumed);
    assert_eq!(parsed, idx);
}

#[test]
fn empty_index_serializes_to_two_bytes() {
    let idx = Index {
        count: 0,
        off_size: 1,
        offsets: vec![1],
        data: vec![],
    };
    let bytes = idx.serialize();
    assert_eq!(bytes, vec![0, 0]);
    let (parsed, consumed) = Index::parse(&bytes).unwrap();
    assert_eq!(consumed, 2);
    assert_eq!(parsed.count, 0);
    assert_eq!(parsed.data.len(), 0);
    // Nothing past the two count bytes is read.
    let (parsed2, consumed2) = Index::parse(&[0, 0, 0xAB, 0xCD]).unwrap();
    assert_eq!(consumed2, 2);
    assert_eq!(parsed2, parsed);
}

#[test]
fn from_elements_builds_valid_index() {
    let elements = vec![b"abc".to_vec(), vec![], b"de".to_vec()];
    let idx = Index::from_elements(&elements).unwrap();
    assert_eq!(idx.count, 3);
    assert_eq!(idx.offsets, vec![1, 4, 4, 6]);
    assert_eq!(idx.off_size, 1);
    assert!(idx.is_valid());
    assert_eq!(idx.get(0).unwrap(), b"abc".to_vec());
    assert_eq!(idx.get(1).unwrap(), Vec::<u8>::new());
    assert_eq!(idx.get(2).unwrap(), b"de".to_vec());
}

#[test]
fn from_elements_chooses_minimal_off_size() {
    // 254 bytes of data: the largest offset is 255, one byte suffices.
    let idx1 = Index::from_elements(&vec![vec![0u8; 254]]).unwrap();
    assert_eq!(idx1.off_size, 1);
    // 255 bytes of data: the largest offset is 256, so one byte would
    // silently corrupt offsets and two must be chosen.
    let idx2 = Index::from_elements(&vec![vec![0u8; 255]]).unwrap();
    assert_eq!(idx2.off_size, 2);
    // 65535 bytes of data: the largest offset is 65536, needing three bytes.
    let idx3 = Index::from_elements(&vec![vec![0u8; 65535]]).unwrap();
    assert_eq!(idx3.off_size, 3);
}

#[test]
fn from_elements_rejects_too_many_elements() {
    let elements = vec![Vec::<u8>::new(); 65536];
    assert_eq!(
        Index::from_elements(&elements).unwrap_err(),
        CffError::LimitExceeded
    );
}

#[test]
fn index_get_out_of_bounds() {
    let idx = Index::from_elements(&vec![b"x".to_vec()]).unwrap();
    assert_eq!(idx.get(1).unwrap_err(), CffError::IndexOutOfBounds);
}

#[test]
fn index_get_malformed_offsets() {
    let idx = Index {
        count: 1,
        off_size: 1,
        offsets: vec![5, 2],
        data: vec![1, 2, 3],
    };
    assert_eq!(idx.get(0).unwrap_err(), CffError::MalformedOffsets);
}

#[test]
fn parse_errors_by_kind() {
    // Too short for the count field.
    assert_eq!(Index::parse(&[0]).unwrap_err(), CffError::TruncatedIndex);
    // Count present but no off_size byte.
    assert_eq!(Index::parse(&[0, 1]).unwrap_err(), CffError::TruncatedIndex);
    // Invalid offset width.
    assert_eq!(
        Index::parse(&[0, 1, 5, 1, 2]).unwrap_err(),
        CffError::InvalidOffsetSize
    );
    // Offsets not 1-based.
    assert_eq!(
        Index::parse(&[0, 1, 1, 2, 3, 9]).unwrap_err(),
        CffError::MalformedOffsets
    );
    // Offsets decreasing.
    assert_eq!(
        Index::parse(&[0, 1, 1, 1, 0]).unwrap_err(),
        CffError::MalformedOffsets
    );
    // Data blob shorter than the last offset promises.
    assert_eq!(
        Index::parse(&[0, 1, 1, 1, 4, 1]).unwrap_err(),
        CffError::TruncatedIndex
    );
}

#[test]
fn read_offset_each_width() {
    let bytes = [0x12, 0x34, 0x56, 0x78];
    assert_eq!(read_offset(&bytes, 1).unwrap(), 0x12);
    assert_eq!(read_offset(&bytes, 2).unwrap(), 0x1234);
    assert_eq!(read_offset(&bytes, 3).unwrap(), 0x123456);
    assert_eq!(read_offset(&bytes, 4).unwrap(), 0x12345678);
}

#[test]
fn read_offset_rejects_bad_width() {
    let bytes = [1, 2, 3, 4];
    assert_eq!(read_offset(&bytes, 0).unwrap_err(), CffError::InvalidOffsetSize);
    assert_eq!(read_offset(&bytes, 5).unwrap_err(), CffError::InvalidOffsetSize);
}

#[test]
fn write_offset_each_width() {
    assert_eq!(write_offset(0x12, 1).unwrap(), vec![0x12]);
    assert_eq!(write_offset(0x1234, 2).unwrap(), vec![0x12, 0x34]);
    assert_eq!(write_offset(0x123456, 3).unwrap(), vec![0x12, 0x34, 0x56]);
    assert_eq!(
        write_offset(0x12345678, 4).unwrap(),
        vec![0x12, 0x34, 0x56, 0x78]
    );
    // Too-small widths truncate to the low-order bytes.
    assert_eq!(write_offset(0x1234, 1).unwrap(), vec![0x34]);
    assert_eq!(
        write_offset(7, 0).unwrap_err(),
        CffError::InvalidOffsetSize
    );
}

#[test]
fn min_off_size_boundaries() {
    assert_eq!(min_off_size(0), 1);
    assert_eq!(min_off_size(255), 1);
    assert_eq!(min_off_size(256), 2);
    assert_eq!(min_off_size(65535), 2);
    assert_eq!(min_off_size(65536), 3);
    assert_eq!(min_off_size(16777215), 3);
    assert_eq!(min_off_size(16777216), 4);
    assert_eq!(min_off_size(u32::MAX), 4);
}
