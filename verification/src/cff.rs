//! The CFF table aggregate: header plus the four INDEX structures (Names,
//! Top DICTs, Strings, Global Subroutines), with structured access to the
//! first font's Top DICT.
//!
//! A CFF table carries more data after the Global Subroutine INDEX
//! (charstrings, private dictionaries and the structures the Top DICT's
//! offset entries point at); this codec models the leading five structures
//! and leaves those trailing bytes to their own consumers, exactly as wide
//! as the offset entries it preserves describe them.

use vstd::prelude::*;
use vstd::slice::{slice_index_get, slice_subrange, slice_to_vec};

use crate::error::{CffError, CffParseError, CffSection};
use crate::index::{
    byte_views, fits_index, lemma_get_wf, lemma_parse_serialize_roundtrip_with, lemma_parse_wf,
    push_bytes, spec_get, spec_parse, spec_serialize, Index, IndexModel,
};
use crate::dict::{
    decode_entries, encode_entries, entries_view, entries_wf, entry_is_valid, entry_wf,
    lemma_decode_of_encode_entries, lemma_encode_entries_concat, spec_decode_entries,
    spec_encode_entries, Entry, EntryModel, StringId,
};
use crate::strings::{
    allocate, bytes_eq, bytes_to_string_lossy, lemma_find_custom_none, lemma_find_standard_none,
    spec_find_custom, spec_find_standard, spec_standard_bytes, spec_standard_string,
    standard_string, utf8_lossy,
};
use vstd::string::{StrSliceExecFns, StringExecFns, StringSliceAdditionalSpecFns};
use vstd::utf8::encode_utf8;

verus! {

/// The CFF table header: four fixed bytes, then `header_size - 4` reserved
/// bytes kept verbatim so serialization reproduces the header exactly. The
/// header's `off_size` describes the first INDEX only; each INDEX declares
/// its own.
#[derive(Clone, Debug, PartialEq, Eq)]
pub struct CffHeader {
    pub major: u8,
    pub minor: u8,
    pub header_size: u8,
    pub off_size: u8,
    pub reserved: Vec<u8>,
}

/// The model of a header.
#[verifier::ext_equal]
pub ghost struct CffHeaderModel {
    pub major: u8,
    pub minor: u8,
    pub header_size: u8,
    pub off_size: u8,
    pub reserved: Seq<u8>,
}

impl View for CffHeader {
    type V = CffHeaderModel;

    open spec fn view(&self) -> CffHeaderModel {
        CffHeaderModel {
            major: self.major,
            minor: self.minor,
            header_size: self.header_size,
            off_size: self.off_size,
            reserved: self.reserved@,
        }
    }
}

impl CffHeaderModel {
    /// The header invariants: it spans at least its four fixed bytes, its
    /// first-INDEX offset width is valid, and the reserved bytes fill it.
    pub open spec fn wf(self) -> bool {
        &&& self.header_size >= 4
        &&& 1 <= self.off_size <= 4
        &&& self.reserved.len() == self.header_size - 4
    }
}

/// The serialized header: the four fixed bytes then the reserved bytes.
pub open spec fn spec_serialize_header(h: CffHeaderModel) -> Seq<u8> {
    seq![h.major, h.minor, h.header_size, h.off_size] + h.reserved
}

/// Parsing a header: reads the four fixed bytes, validates them, and keeps
/// the reserved bytes up to `header_size`. Truncation fails with
/// `TruncatedIndex`; a `header_size` below 4 (an offset into the header
/// itself) with `MalformedOffsets`; an offset width outside 1..=4 with
/// `InvalidOffsetSize`.
pub open spec fn spec_parse_header(b: Seq<u8>) -> Result<(CffHeaderModel, int), CffError> {
    if b.len() < 4 {
        Err(CffError::TruncatedIndex)
    } else if b[2] < 4 {
        Err(CffError::MalformedOffsets)
    } else if b[3] < 1 || b[3] > 4 {
        Err(CffError::InvalidOffsetSize)
    } else if b.len() < b[2] {
        Err(CffError::TruncatedIndex)
    } else {
        Ok(
            (
                CffHeaderModel {
                    major: b[0],
                    minor: b[1],
                    header_size: b[2],
                    off_size: b[3],
                    reserved: b.subrange(4, b[2] as int),
                },
                b[2] as int,
            ),
        )
    }
}

/// A parsed header is well formed, and serializing it reproduces exactly the
/// consumed bytes.
pub proof fn lemma_parse_header_exact(b: Seq<u8>)
    requires
        spec_parse_header(b) is Ok,
    ensures
        spec_parse_header(b)->Ok_0.0.wf(),
        spec_serialize_header(spec_parse_header(b)->Ok_0.0) =~= b.take(spec_parse_header(b)->Ok_0.1),
{
}

/// Serializing a well-formed header and parsing the result (with anything
/// after it) yields the header back.
pub proof fn lemma_header_roundtrip(h: CffHeaderModel, rest: Seq<u8>)
    requires
        h.wf(),
    ensures
        spec_parse_header(spec_serialize_header(h) + rest) == Ok::<(CffHeaderModel, int), CffError>(
            (h, h.header_size as int),
        ),
{
    let b = spec_serialize_header(h) + rest;
    assert(b[0] == h.major && b[1] == h.minor && b[2] == h.header_size && b[3] == h.off_size);
    assert(b.subrange(4, h.header_size as int) =~= h.reserved);
    let parsed = spec_parse_header(b)->Ok_0.0;
    assert(parsed =~= h);
}

/// The Compact Font Format table: header, then the Name, Top DICT, String
/// and Global Subroutine INDEX structures, in that order.
#[derive(Clone, Debug, PartialEq, Eq)]
pub struct Cff {
    pub header: CffHeader,
    pub names: Index,
    pub top_dicts: Index,
    pub strings: Index,
    pub global_subrs: Index,
}

/// The model of a CFF table.
#[verifier::ext_equal]
pub ghost struct CffModel {
    pub header: CffHeaderModel,
    pub names: IndexModel,
    pub top_dicts: IndexModel,
    pub strings: IndexModel,
    pub global_subrs: IndexModel,
}

impl View for Cff {
    type V = CffModel;

    open spec fn view(&self) -> CffModel {
        CffModel {
            header: self.header@,
            names: self.names@,
            top_dicts: self.top_dicts@,
            strings: self.strings@,
            global_subrs: self.global_subrs@,
        }
    }
}

impl CffModel {
    /// A well-formed table: every component is well formed.
    pub open spec fn wf(self) -> bool {
        &&& self.header.wf()
        &&& self.names.wf()
        &&& self.top_dicts.wf()
        &&& self.strings.wf()
        &&& self.global_subrs.wf()
    }

    /// Whether the first Top DICT (when present) decodes.
    pub open spec fn top_dict_decodable(self) -> bool {
        self.top_dicts.count > 0 ==> spec_decode_entries(
            self.top_dicts.element(0),
            Seq::empty(),
        ) is Some
    }
}

/// The serialized table: header and the four INDEX structures in order.
pub open spec fn spec_to_binary(c: CffModel) -> Seq<u8> {
    spec_serialize_header(c.header) + spec_serialize(c.names) + spec_serialize(c.top_dicts)
        + spec_serialize(c.strings) + spec_serialize(c.global_subrs)
}

/// Parsing a table: header, the four INDEX structures, then a decode check
/// of the first Top DICT. Each failure carries the section it occurred in.
/// Bytes after the Global Subroutine INDEX are not read.
pub open spec fn spec_from_binary(b: Seq<u8>) -> Result<(CffModel, int), CffParseError> {
    match spec_parse_header(b) {
        Err(e) => Err(CffParseError { section: CffSection::Header, error: e }),
        Ok((h, n0)) => match spec_parse(b.skip(n0)) {
            Err(e) => Err(CffParseError { section: CffSection::NameIndex, error: e }),
            Ok((names, n1)) => match spec_parse(b.skip(n0 + n1)) {
                Err(e) => Err(CffParseError { section: CffSection::TopDictIndex, error: e }),
                Ok((top_dicts, n2)) => match spec_parse(b.skip(n0 + n1 + n2)) {
                    Err(e) => Err(CffParseError { section: CffSection::StringIndex, error: e }),
                    Ok((strings, n3)) => match spec_parse(b.skip(n0 + n1 + n2 + n3)) {
                        Err(e) => Err(
                            CffParseError { section: CffSection::GlobalSubrIndex, error: e },
                        ),
                        Ok((global_subrs, n4)) => {
                            let c = CffModel { header: h, names, top_dicts, strings, global_subrs };
                            if !c.top_dict_decodable() {
                                Err(
                                    CffParseError {
                                        section: CffSection::TopDictEntries,
                                        error: CffError::MalformedDictOperand,
                                    },
                                )
                            } else {
                                Ok((c, n0 + n1 + n2 + n3 + n4))
                            }
                        },
                    },
                },
            },
        },
    }
}

/// Whatever parses is well formed.
pub proof fn lemma_from_binary_wf(b: Seq<u8>)
    requires
        spec_from_binary(b) is Ok,
    ensures
        spec_from_binary(b)->Ok_0.0.wf(),
        spec_from_binary(b)->Ok_0.0.top_dict_decodable(),
{
    let n0 = spec_parse_header(b)->Ok_0.1;
    lemma_parse_header_exact(b);
    let n1 = spec_parse(b.skip(n0))->Ok_0.1;
    lemma_parse_wf(b.skip(n0));
    let n2 = spec_parse(b.skip(n0 + n1))->Ok_0.1;
    lemma_parse_wf(b.skip(n0 + n1));
    let n3 = spec_parse(b.skip(n0 + n1 + n2))->Ok_0.1;
    lemma_parse_wf(b.skip(n0 + n1 + n2));
    lemma_parse_wf(b.skip(n0 + n1 + n2 + n3));
}

/// The suffixes of a five-part concatenation at each part boundary.
pub proof fn lemma_concat5_skips(hb: Seq<u8>, s1: Seq<u8>, s2: Seq<u8>, s3: Seq<u8>, s4: Seq<u8>)
    ensures
        (hb + s1 + s2 + s3 + s4) =~= hb + (s1 + s2 + s3 + s4),
        (hb + s1 + s2 + s3 + s4).skip(hb.len() as int) =~= s1 + (s2 + s3 + s4),
        (hb + s1 + s2 + s3 + s4).skip((hb.len() + s1.len()) as int) =~= s2 + (s3 + s4),
        (hb + s1 + s2 + s3 + s4).skip((hb.len() + s1.len() + s2.len()) as int) =~= s3 + s4,
        (hb + s1 + s2 + s3 + s4).skip((hb.len() + s1.len() + s2.len() + s3.len()) as int) =~= s4
            + Seq::<u8>::empty(),
        (hb + s1 + s2 + s3 + s4).len() == hb.len() + s1.len() + s2.len() + s3.len() + s4.len(),
{
}

/// Law: structured round trip. Serializing a well-formed table whose first
/// Top DICT decodes, then parsing the serialization, yields the identical
/// table and consumes every serialized byte.
#[verifier::rlimit(100)]
#[verifier::spinoff_prover]
pub proof fn lemma_to_binary_from_binary(c: CffModel)
    requires
        c.wf(),
        c.top_dict_decodable(),
    ensures
        spec_from_binary(spec_to_binary(c)) == Ok::<(CffModel, int), CffParseError>(
            (c, spec_to_binary(c).len() as int),
        ),
{
    let b = spec_to_binary(c);
    let hb = spec_serialize_header(c.header);
    let s1 = spec_serialize(c.names);
    let s2 = spec_serialize(c.top_dicts);
    let s3 = spec_serialize(c.strings);
    let s4 = spec_serialize(c.global_subrs);
    lemma_concat5_skips(hb, s1, s2, s3, s4);
    lemma_header_roundtrip(c.header, s1 + s2 + s3 + s4);
    let n0 = c.header.header_size as int;
    assert(hb.len() == n0);
    assert(spec_parse_header(b) == Ok::<(CffHeaderModel, int), CffError>((c.header, n0)));
    lemma_parse_serialize_roundtrip_with(c.names, s2 + s3 + s4);
    assert(spec_parse(b.skip(n0)) == Ok::<(IndexModel, int), CffError>(
        (c.names, s1.len() as int),
    ));
    lemma_parse_serialize_roundtrip_with(c.top_dicts, s3 + s4);
    assert(spec_parse(b.skip(n0 + s1.len())) == Ok::<(IndexModel, int), CffError>(
        (c.top_dicts, s2.len() as int),
    ));
    lemma_parse_serialize_roundtrip_with(c.strings, s4);
    assert(spec_parse(b.skip(n0 + s1.len() + s2.len())) == Ok::<(IndexModel, int), CffError>(
        (c.strings, s3.len() as int),
    ));
    lemma_parse_serialize_roundtrip_with(c.global_subrs, Seq::empty());
    assert(spec_serialize(c.global_subrs) + Seq::<u8>::empty() =~= spec_serialize(c.global_subrs));
    assert(spec_parse(b.skip(n0 + s1.len() + s2.len() + s3.len()))
        == Ok::<(IndexModel, int), CffError>((c.global_subrs, s4.len() as int)));
    let parsed = spec_from_binary(b)->Ok_0.0;
    assert(parsed =~= c);
    assert(b.len() == n0 + s1.len() + s2.len() + s3.len() + s4.len());
}

impl Cff {
    /// Construct a new `Cff` table from its five components.
    pub fn new(
        header: CffHeader,
        names: Index,
        top_dicts: Index,
        strings: Index,
        global_subrs: Index,
    ) -> (c: Cff)
        ensures
            c.header == header,
            c.names == names,
            c.top_dicts == top_dicts,
            c.strings == strings,
            c.global_subrs == global_subrs,
    {
        Cff { header, names, top_dicts, strings, global_subrs }
    }

    /// The OpenType table tag under which a CFF table is stored: the four
    /// bytes of `"CFF "` (space-padded).
    pub fn table_tag() -> (t: Vec<u8>)
        ensures
            t@ =~= seq![67u8, 70u8, 70u8, 32u8],
    {
        let mut t: Vec<u8> = Vec::new();
        t.push(67);
        t.push(70);
        t.push(70);
        t.push(32);
        t
    }

    /// An executable check of the whole table's invariants.
    pub fn is_valid(&self) -> (b: bool)
        ensures
            b == self@.wf(),
    {
        let header_ok = self.header.header_size >= 4 && self.header.off_size >= 1
            && self.header.off_size <= 4 && self.header.reserved.len()
            == self.header.header_size as usize - 4;
        header_ok && self.names.is_valid() && self.top_dicts.is_valid() && self.strings.is_valid()
            && self.global_subrs.is_valid()
    }

    /// Parses a CFF table from the front of `bytes`. The four INDEX
    /// structures follow the header in fixed order; the first Top DICT, when
    /// present, must decode. Bytes past the Global Subroutine INDEX are left
    /// unread. Every error carries the section it occurred in.
    #[verifier::rlimit(100)]
    pub fn from_binary(bytes: &[u8]) -> (r: Result<(Cff, usize), CffParseError>)
        ensures
            match spec_from_binary(bytes@) {
                Ok((m, n)) => r matches Ok(p) && p.0@ =~= m && p.1 == n,
                Err(e) => r == Err::<(Cff, usize), CffParseError>(e),
            },
    {
        let total = bytes.len();
        if total < 4 {
            return Err(
                CffParseError { section: CffSection::Header, error: CffError::TruncatedIndex },
            );
        }
        let major = *slice_index_get(bytes, 0);
        let minor = *slice_index_get(bytes, 1);
        let header_size = *slice_index_get(bytes, 2);
        let off_size = *slice_index_get(bytes, 3);
        if header_size < 4 {
            return Err(
                CffParseError { section: CffSection::Header, error: CffError::MalformedOffsets },
            );
        }
        if off_size < 1 || off_size > 4 {
            return Err(
                CffParseError { section: CffSection::Header, error: CffError::InvalidOffsetSize },
            );
        }
        if total < header_size as usize {
            return Err(
                CffParseError { section: CffSection::Header, error: CffError::TruncatedIndex },
            );
        }
        let reserved = slice_to_vec(slice_subrange(bytes, 4, header_size as usize));
        let header = CffHeader { major, minor, header_size, off_size, reserved };
        let n0 = header_size as usize;
        proof {
            assert(header@ =~= spec_parse_header(bytes@)->Ok_0.0);
        }
        let (names, n1) = match Index::parse(slice_subrange(bytes, n0, total)) {
            Ok(p) => p,
            Err(e) => {
                proof {
                    assert(bytes@.subrange(n0 as int, total as int) =~= bytes@.skip(n0 as int));
                }
                return Err(CffParseError { section: CffSection::NameIndex, error: e });
            },
        };
        proof {
            assert(bytes@.subrange(n0 as int, total as int) =~= bytes@.skip(n0 as int));
        }
        let c1 = n0 + n1;
        let (top_dicts, n2) = match Index::parse(slice_subrange(bytes, c1, total)) {
            Ok(p) => p,
            Err(e) => {
                proof {
                    assert(bytes@.subrange(c1 as int, total as int) =~= bytes@.skip(c1 as int));
                }
                return Err(CffParseError { section: CffSection::TopDictIndex, error: e });
            },
        };
        proof {
            assert(bytes@.subrange(c1 as int, total as int) =~= bytes@.skip(c1 as int));
        }
        let c2 = c1 + n2;
        let (strings, n3) = match Index::parse(slice_subrange(bytes, c2, total)) {
            Ok(p) => p,
            Err(e) => {
                proof {
                    assert(bytes@.subrange(c2 as int, total as int) =~= bytes@.skip(c2 as int));
                }
                return Err(CffParseError { section: CffSection::StringIndex, error: e });
            },
        };
        proof {
            assert(bytes@.subrange(c2 as int, total as int) =~= bytes@.skip(c2 as int));
        }
        let c3 = c2 + n3;
        let (global_subrs, n4) = match Index::parse(slice_subrange(bytes, c3, total)) {
            Ok(p) => p,
            Err(e) => {
                proof {
                    assert(bytes@.subrange(c3 as int, total as int) =~= bytes@.skip(c3 as int));
                }
                return Err(CffParseError { section: CffSection::GlobalSubrIndex, error: e });
            },
        };
        proof {
            assert(bytes@.subrange(c3 as int, total as int) =~= bytes@.skip(c3 as int));
        }
        let c4 = c3 + n4;
        let c = Cff { header, names, top_dicts, strings, global_subrs };
        proof {
            lemma_parse_wf(bytes@.skip(c1 as int));
        }
        if c.top_dicts.count > 0 {
            let dict_bytes = match c.top_dicts.get(0) {
                Ok(v) => v,
                Err(_) => {
                    proof {
                        lemma_get_wf(c.top_dicts@, 0);
                        assert(false);
                    }
                    return Err(
                        CffParseError {
                            section: CffSection::TopDictEntries,
                            error: CffError::MalformedDictOperand,
                        },
                    );
                },
            };
            proof {
                lemma_get_wf(c.top_dicts@, 0);
            }
            match crate::dict::decode_entries(dict_bytes.as_slice()) {
                Ok(_) => {},
                Err(e) => {
                    return Err(CffParseError { section: CffSection::TopDictEntries, error: e });
                },
            }
        }
        proof {
            let m = spec_from_binary(bytes@)->Ok_0.0;
            assert(c@ =~= m);
        }
        Ok((c, c4))
    }

    /// Serializes the table: header and the four INDEX structures in order,
    /// exactly mirroring `from_binary`'s layout.
    pub fn to_binary(&self) -> (r: Vec<u8>)
        requires
            self@.wf(),
        ensures
            r@ == spec_to_binary(self@),
    {
        let mut out: Vec<u8> = Vec::new();
        out.push(self.header.major);
        out.push(self.header.minor);
        out.push(self.header.header_size);
        out.push(self.header.off_size);
        push_bytes(&mut out, &self.header.reserved);
        proof {
            assert(out@ =~= spec_serialize_header(self@.header));
        }
        let b1 = self.names.serialize();
        push_bytes(&mut out, &b1);
        let b2 = self.top_dicts.serialize();
        push_bytes(&mut out, &b2);
        let b3 = self.strings.serialize();
        push_bytes(&mut out, &b3);
        let b4 = self.global_subrs.serialize();
        push_bytes(&mut out, &b4);
        proof {
            assert(out@ =~= spec_to_binary(self@));
        }
        out
    }
}

/// The slot a string-valued entry projects to: 0 Version, 1 Notice,
/// 2 FullName, 3 FamilyName, 4 Weight, 5 Copyright, 6 FontName.
pub open spec fn field_slot(e: EntryModel) -> Option<int> {
    match e {
        EntryModel::Version(_) => Some(0),
        EntryModel::Notice(_) => Some(1),
        EntryModel::FullName(_) => Some(2),
        EntryModel::FamilyName(_) => Some(3),
        EntryModel::Weight(_) => Some(4),
        EntryModel::Copyright(_) => Some(5),
        EntryModel::FontName(_) => Some(6),
        _ => None,
    }
}

/// The string identifier a string-valued entry carries.
pub open spec fn field_sid(e: EntryModel) -> u16 {
    match e {
        EntryModel::Version(s) => s,
        EntryModel::Notice(s) => s,
        EntryModel::FullName(s) => s,
        EntryModel::FamilyName(s) => s,
        EntryModel::Weight(s) => s,
        EntryModel::Copyright(s) => s,
        EntryModel::FontName(s) => s,
        _ => 0,
    }
}

/// The string-valued entry for a slot and identifier.
pub open spec fn field_entry(k: int, sid: u16) -> EntryModel {
    if k == 0 {
        EntryModel::Version(sid)
    } else if k == 1 {
        EntryModel::Notice(sid)
    } else if k == 2 {
        EntryModel::FullName(sid)
    } else if k == 3 {
        EntryModel::FamilyName(sid)
    } else if k == 4 {
        EntryModel::Weight(sid)
    } else if k == 5 {
        EntryModel::Copyright(sid)
    } else {
        EntryModel::FontName(sid)
    }
}

/// The entries that are not string-valued fields, in stream order.
pub open spec fn raws_of(es: Seq<EntryModel>) -> Seq<EntryModel>
    decreases es.len(),
{
    if es.len() == 0 {
        Seq::empty()
    } else {
        raws_of(es.drop_last()) + (if field_slot(es.last()) is None {
            seq![es.last()]
        } else {
            Seq::empty()
        })
    }
}

/// The identifier the last entry for a slot carries, if any: duplicate
/// operators follow the last-wins policy of PostScript DICT interpreters.
pub open spec fn last_sid_for(es: Seq<EntryModel>, k: int) -> Option<u16>
    decreases es.len(),
{
    if es.len() == 0 {
        None
    } else if field_slot(es.last()) == Some(k) {
        Some(field_sid(es.last()))
    } else {
        last_sid_for(es.drop_last(), k)
    }
}

/// Resolution of an identifier to bytes over the model: standard strings
/// below 391, the custom INDEX above, out-of-range identifiers failing with
/// `UnknownStringId`.
pub open spec fn spec_resolve_model(strings: IndexModel, sid: u16) -> Result<Seq<u8>, CffError> {
    if sid < 391 {
        Ok(spec_standard_bytes(sid as int))
    } else {
        match spec_get(strings, sid - 391) {
            Ok(b) => Ok(b),
            Err(e) => Err(
                if e == CffError::IndexOutOfBounds {
                    CffError::UnknownStringId
                } else {
                    e
                },
            ),
        }
    }
}

/// The text an identifier resolves to, where resolution succeeds: exact for
/// standard strings, `utf8_lossy` of the stored bytes for custom ones.
pub open spec fn spec_resolve_text(strings: IndexModel, sid: u16) -> Seq<char> {
    if sid < 391 {
        spec_standard_string(sid as int)
    } else {
        utf8_lossy(spec_get(strings, sid - 391)->Ok_0)
    }
}

/// The first resolution error among the slots' loaded identifiers, scanning
/// slots in order.
pub open spec fn first_slot_error(strings: IndexModel, es: Seq<EntryModel>, k: int) -> Option<
    CffError,
>
    decreases 7 - k,
{
    if k < 0 || k >= 7 {
        None
    } else {
        match last_sid_for(es, k) {
            None => first_slot_error(strings, es, k + 1),
            Some(sid) => match spec_resolve_model(strings, sid) {
                Ok(_) => first_slot_error(strings, es, k + 1),
                Err(e) => Some(e),
            },
        }
    }
}

/// An originally-loaded string field: the identifier the Top DICT carried
/// and the bytes it resolved to at load time.
#[derive(Clone, Debug, PartialEq, Eq)]
pub struct OrigString {
    pub sid: StringId,
    pub bytes: Vec<u8>,
}

/// The model of an originally-loaded string field.
#[verifier::ext_equal]
pub ghost struct OrigModel {
    pub sid: u16,
    pub bytes: Seq<u8>,
}

impl View for OrigString {
    type V = OrigModel;

    open spec fn view(&self) -> OrigModel {
        OrigModel { sid: self.sid.0, bytes: self.bytes@ }
    }
}

/// The view of an optional text field.
pub open spec fn opt_text_view(o: &Option<String>) -> Option<Seq<char>> {
    match o {
        None => None,
        Some(s) => Some(s@),
    }
}

/// The view of an optional loaded string.
pub open spec fn opt_orig_view(o: Option<OrigString>) -> Option<OrigModel> {
    match o {
        None => None,
        Some(s) => Some(s@),
    }
}

/// The view of an optional identifier.
pub open spec fn opt_sid_view(o: Option<StringId>) -> Option<u16> {
    match o {
        None => None,
        Some(s) => Some(s.0),
    }
}

/// A structured view of the first Top DICT: the seven commonly edited
/// string-valued fields by name, pass-through storage for every other
/// entry, and the originally-resolved value of each string field so that
/// serialization can tell edited fields from untouched ones.
#[derive(Clone, Debug)]
pub struct TopDictData {
    /// The Version string (slot 0).
    pub version: Option<String>,
    /// The Notice string (slot 1).
    pub notice: Option<String>,
    /// The FullName string (slot 2).
    pub full_name: Option<String>,
    /// The FamilyName string (slot 3).
    pub family_name: Option<String>,
    /// The Weight string (slot 4).
    pub weight: Option<String>,
    /// The Copyright string (slot 5).
    pub copyright: Option<String>,
    /// The FontName string (slot 6).
    pub font_name: Option<String>,
    /// Every other parsed entry, preserved for round-trip fidelity.
    pub raw_entries: Vec<Entry>,
    /// Per slot, the identifier and bytes loaded from the font, if the slot
    /// was present: `set_top_dict_data` keeps an identifier exactly when the
    /// desired text still matches these bytes.
    pub origs: Vec<Option<OrigString>>,
}

/// The model of the structured view: seven desired texts, the raw entries,
/// and seven original values.
#[verifier::ext_equal]
pub ghost struct TopDictModel {
    pub fields: Seq<Option<Seq<char>>>,
    pub raws: Seq<EntryModel>,
    pub origs: Seq<Option<OrigModel>>,
}

impl View for TopDictData {
    type V = TopDictModel;

    open spec fn view(&self) -> TopDictModel {
        TopDictModel {
            fields: seq![
                opt_text_view(&self.version),
                opt_text_view(&self.notice),
                opt_text_view(&self.full_name),
                opt_text_view(&self.family_name),
                opt_text_view(&self.weight),
                opt_text_view(&self.copyright),
                opt_text_view(&self.font_name),
            ],
            raws: entries_view(self.raw_entries@),
            origs: Seq::new(
                7,
                |k: int|
                    if 0 <= k < self.origs@.len() {
                        opt_orig_view(self.origs@[k])
                    } else {
                        None
                    },
            ),
        }
    }
}

impl TopDictData {
    /// Create a new empty TopDictData.
    pub fn new() -> (d: TopDictData)
        ensures
            forall|k: int| 0 <= k < 7 ==> d@.fields[k] is None,
            d@.raws =~= Seq::<EntryModel>::empty(),
            forall|k: int| 0 <= k < 7 ==> d@.origs[k] is None,
    {
        let mut origs: Vec<Option<OrigString>> = Vec::new();
        let mut k: usize = 0;
        while k < 7
            invariant
                origs@.len() == k,
                forall|j: int| 0 <= j < k ==> origs@[j] is None,
            decreases 7 - k,
        {
            origs.push(None);
            k += 1;
        }
        TopDictData {
            version: None,
            notice: None,
            full_name: None,
            family_name: None,
            weight: None,
            copyright: None,
            font_name: None,
            raw_entries: Vec::new(),
            origs,
        }
    }
}

/// One slot of a loaded structured view matches the entry stream and the
/// string table.
pub open spec fn slot_loaded(
    strings: IndexModel,
    es: Seq<EntryModel>,
    dm: TopDictModel,
    k: int,
) -> bool {
    match last_sid_for(es, k) {
        None => dm.origs[k] is None && dm.fields[k] is None,
        Some(sid) => {
            &&& spec_resolve_model(strings, sid) is Ok
            &&& dm.origs[k] == Some(
                OrigModel { sid, bytes: spec_resolve_model(strings, sid)->Ok_0 },
            )
            &&& dm.fields[k] == Some(spec_resolve_text(strings, sid))
        },
    }
}

/// A loaded structured view: pass-through entries preserved in order, every
/// slot projected with last-wins and resolved.
pub open spec fn spec_loaded_ok(strings: IndexModel, es: Seq<EntryModel>, dm: TopDictModel) -> bool {
    &&& dm.raws == raws_of(es)
    &&& forall|k: int| 0 <= k < 7 ==> #[trigger] slot_loaded(strings, es, dm, k)
}

/// Scanning for the first resolution error skips a slot that is absent or
/// resolves.
proof fn lemma_first_slot_error_step(st: IndexModel, es: Seq<EntryModel>, k: int)
    requires
        0 <= k < 7,
        match last_sid_for(es, k) {
            None => true,
            Some(sid) => spec_resolve_model(st, sid) is Ok,
        },
    ensures
        first_slot_error(st, es, k) == first_slot_error(st, es, k + 1),
{
}

/// Resolves one projected slot: nothing for an absent slot; for a present
/// identifier, the text and the originally-resolved bytes.
fn load_slot(strings: &Index, osid: Option<StringId>) -> (r: Result<
    (Option<String>, Option<OrigString>),
    CffError,
>)
    ensures
        match opt_sid_view(osid) {
            None => r matches Ok(p) && p.0 is None && p.1 is None,
            Some(sid) => match spec_resolve_model(strings@, sid) {
                Ok(bytes) => r matches Ok(p) && (p.0 matches Some(t) && t@ == spec_resolve_text(
                    strings@,
                    sid,
                )) && (p.1 matches Some(o) && o@ == (OrigModel { sid, bytes })),
                Err(e) => r == Err::<(Option<String>, Option<OrigString>), CffError>(e),
            },
        },
{
    match osid {
        None => Ok((None, None)),
        Some(sid) => {
            if sid.0 < 391 {
                let st = standard_string(sid.0);
                let b = st.as_bytes_vec();
                Ok((Some(String::from_str(st)), Some(OrigString { sid, bytes: b })))
            } else {
                match strings.get((sid.0 - 391) as usize) {
                    Ok(b) => {
                        let t = bytes_to_string_lossy(&b);
                        Ok((Some(t), Some(OrigString { sid, bytes: b })))
                    },
                    Err(CffError::IndexOutOfBounds) => Err(CffError::UnknownStringId),
                    Err(e) => Err(e),
                }
            }
        },
    }
}

/// Defensive element access as the aggregate's accessors perform it: bounds
/// first, then the declared offset width, then the offset pair itself.
pub open spec fn spec_get_checked(m: IndexModel, i: int) -> Result<Seq<u8>, CffError> {
    if i >= m.count {
        Err(CffError::IndexOutOfBounds)
    } else if m.off_size < 1 || m.off_size > 4 {
        Err(CffError::InvalidOffsetSize)
    } else {
        spec_get(m, i)
    }
}

impl Cff {
    /// The raw bytes of the Top DICT at `index`, validated against the
    /// owning INDEX's declared offset width and data length; errors rather
    /// than panicking on any out-of-range or inverted offset pair.
    pub fn get_top_dict_bytes(&self, index: usize) -> (r: Result<Vec<u8>, CffError>)
        ensures
            match spec_get_checked(self.top_dicts@, index as int) {
                Ok(b) => r matches Ok(v) && v@ =~= b,
                Err(e) => r == Err::<Vec<u8>, CffError>(e),
            },
            self.top_dicts@.wf() && index < self.top_dicts@.count ==> (r matches Ok(v) && v@
                =~= self.top_dicts@.element(index as int)),
    {
        proof {
            if self.top_dicts@.wf() && index < self.top_dicts@.count {
                lemma_get_wf(self.top_dicts@, index as int);
            }
        }
        if index >= self.top_dicts.count as usize {
            return Err(CffError::IndexOutOfBounds);
        }
        if self.top_dicts.off_size < 1 || self.top_dicts.off_size > 4 {
            return Err(CffError::InvalidOffsetSize);
        }
        self.top_dicts.get(index)
    }

    /// The raw bytes of the custom string at `index`, validated the same
    /// way.
    pub fn get_string_bytes(&self, index: usize) -> (r: Result<Vec<u8>, CffError>)
        ensures
            match spec_get_checked(self.strings@, index as int) {
                Ok(b) => r matches Ok(v) && v@ =~= b,
                Err(e) => r == Err::<Vec<u8>, CffError>(e),
            },
            self.strings@.wf() && index < self.strings@.count ==> (r matches Ok(v) && v@
                =~= self.strings@.element(index as int)),
    {
        proof {
            if self.strings@.wf() && index < self.strings@.count {
                lemma_get_wf(self.strings@, index as int);
            }
        }
        if index >= self.strings.count as usize {
            return Err(CffError::IndexOutOfBounds);
        }
        if self.strings.off_size < 1 || self.strings.off_size > 4 {
            return Err(CffError::InvalidOffsetSize);
        }
        self.strings.get(index)
    }

    /// Resolves a string identifier against the standard strings table or
    /// this table's custom String INDEX.
    pub fn resolve_string(&self, string_id: StringId) -> (r: Result<String, CffError>)
        ensures
            string_id.0 < 391 ==> (r matches Ok(s) && s@ == spec_standard_string(
                string_id.0 as int,
            )),
            string_id.0 >= 391 ==> match spec_resolve_model(self.strings@, string_id.0) {
                Ok(bytes) => r matches Ok(s) && s@ == utf8_lossy(bytes),
                Err(e) => r == Err::<String, CffError>(e),
            },
            self.strings@.wf() ==> (r is Ok <==> string_id.0 < 391 + self.strings@.count),
    {
        proof {
            if self.strings@.wf() && string_id.0 >= 391 && string_id.0 - 391
                < self.strings@.count {
                lemma_get_wf(self.strings@, string_id.0 - 391);
            }
        }
        crate::strings::resolve(&self.strings, string_id)
    }

    /// Structured access to the first Top DICT: decodes its entries,
    /// projects the seven string-valued fields (last occurrence wins for
    /// duplicate operators), resolves each against the string table, and
    /// keeps everything else as pass-through entries. Succeeds exactly when
    /// a first Top DICT exists, is extractable, decodes, and every
    /// referenced string identifier resolves.
    #[verifier::rlimit(100)]
    #[verifier::spinoff_prover]
    #[verifier::loop_isolation(false)]
    pub fn get_top_dict_data(&self) -> (r: Result<TopDictData, CffError>)
        ensures
            match r {
                Ok(d) => {
                    &&& self.top_dicts@.count > 0
                    &&& spec_get(self.top_dicts@, 0) is Ok
                    &&& spec_decode_entries(
                        spec_get(self.top_dicts@, 0)->Ok_0,
                        Seq::empty(),
                    ) is Some
                    &&& spec_loaded_ok(
                        self.strings@,
                        spec_decode_entries(spec_get(self.top_dicts@, 0)->Ok_0, Seq::empty())->Some_0,
                        d@,
                    )
                },
                Err(e) => {
                    ||| (self.top_dicts@.count == 0 && e == CffError::NoTopDict)
                    ||| (self.top_dicts@.count > 0 && (spec_get(self.top_dicts@, 0) matches Err(ge)
                        && e == ge))
                    ||| (self.top_dicts@.count > 0 && spec_get(self.top_dicts@, 0) is Ok
                        && spec_decode_entries(
                            spec_get(self.top_dicts@, 0)->Ok_0,
                            Seq::empty(),
                        ) is None && e == CffError::MalformedDictOperand)
                    ||| (self.top_dicts@.count > 0 && spec_get(self.top_dicts@, 0) is Ok
                        && spec_decode_entries(
                            spec_get(self.top_dicts@, 0)->Ok_0,
                            Seq::empty(),
                        ) is Some && first_slot_error(
                        self.strings@,
                        spec_decode_entries(spec_get(self.top_dicts@, 0)->Ok_0, Seq::empty())->Some_0,
                        0,
                    ) == Some(e))
                },
            },
    {
        if self.top_dicts.count == 0 {
            return Err(CffError::NoTopDict);
        }
        let dict_bytes = match self.top_dicts.get(0) {
            Ok(b) => b,
            Err(e) => {
                return Err(e);
            },
        };
        let mut entries = match decode_entries(dict_bytes.as_slice()) {
            Ok(es) => es,
            Err(e) => {
                return Err(e);
            },
        };
        let ghost ev = entries_view(entries@);
        let mut raws: Vec<Entry> = Vec::new();
        let mut s0: Option<StringId> = None;
        let mut s1: Option<StringId> = None;
        let mut s2: Option<StringId> = None;
        let mut s3: Option<StringId> = None;
        let mut s4: Option<StringId> = None;
        let mut s5: Option<StringId> = None;
        let mut s6: Option<StringId> = None;
        let ghost mut i: int = 0;
        proof {
            assert(ev.take(0) =~= Seq::<EntryModel>::empty());
            assert(entries_view(entries@) =~= ev.skip(0));
        }
        while entries.len() > 0
            invariant
                0 <= i <= ev.len(),
                entries_view(entries@) =~= ev.skip(i),
                entries@.len() == ev.len() - i,
                entries_view(raws@) == raws_of(ev.take(i)),
                opt_sid_view(s0) == last_sid_for(ev.take(i), 0),
                opt_sid_view(s1) == last_sid_for(ev.take(i), 1),
                opt_sid_view(s2) == last_sid_for(ev.take(i), 2),
                opt_sid_view(s3) == last_sid_for(ev.take(i), 3),
                opt_sid_view(s4) == last_sid_for(ev.take(i), 4),
                opt_sid_view(s5) == last_sid_for(ev.take(i), 5),
                opt_sid_view(s6) == last_sid_for(ev.take(i), 6),
            decreases entries@.len(),
        {
            let ghost old_entries = entries@;
            let e = entries.remove(0);
            proof {
                assert(entries@ =~= old_entries.skip(1));
                assert(e@ == entries_view(old_entries)[0]);
                assert(e@ == ev[i]);
                assert forall|j: int| 0 <= j < entries@.len() implies entries_view(entries@)[j]
                    == ev.skip(i + 1)[j] by {
                    assert(entries@[j] == old_entries[j + 1]);
                    assert(entries_view(old_entries)[j + 1] == ev.skip(i)[j + 1]);
                }
                assert(entries_view(entries@) =~= ev.skip(i + 1));
                assert(ev.take(i + 1).drop_last() =~= ev.take(i));
                assert(ev.take(i + 1).last() == ev[i]);
            }
            let ghost old_raws = raws@;
            match e {
                Entry::Version(sid) => {
                    s0 = Some(sid);
                },
                Entry::Notice(sid) => {
                    s1 = Some(sid);
                },
                Entry::FullName(sid) => {
                    s2 = Some(sid);
                },
                Entry::FamilyName(sid) => {
                    s3 = Some(sid);
                },
                Entry::Weight(sid) => {
                    s4 = Some(sid);
                },
                Entry::Copyright(sid) => {
                    s5 = Some(sid);
                },
                Entry::FontName(sid) => {
                    s6 = Some(sid);
                },
                other => {
                    raws.push(other);
                    proof {
                        assert(entries_view(raws@) =~= entries_view(old_raws).push(ev[i]));
                        assert(raws_of(ev.take(i + 1)) =~= raws_of(ev.take(i)) + seq![ev[i]]);
                        assert(entries_view(old_raws) + seq![ev[i]] =~= entries_view(
                            old_raws,
                        ).push(ev[i]));
                    }
                },
            }
            proof {
                i = i + 1;
            }
        }
        proof {
            assert(ev.take(i) =~= ev);
        }
        let (version, o0) = match load_slot(&self.strings, s0) {
            Ok(p) => p,
            Err(e) => {
                proof {
                    assert(first_slot_error(self.strings@, ev, 0) == Some(e));
                }
                return Err(e);
            },
        };
        let (notice, o1) = match load_slot(&self.strings, s1) {
            Ok(p) => p,
            Err(e) => {
                proof {
                    assert(first_slot_error(self.strings@, ev, 1) == Some(e));
                    lemma_first_slot_error_step(self.strings@, ev, 0);
                }
                return Err(e);
            },
        };
        let (full_name, o2) = match load_slot(&self.strings, s2) {
            Ok(p) => p,
            Err(e) => {
                proof {
                    assert(first_slot_error(self.strings@, ev, 2) == Some(e));
                    lemma_first_slot_error_step(self.strings@, ev, 1);
                    lemma_first_slot_error_step(self.strings@, ev, 0);
                }
                return Err(e);
            },
        };
        let (family_name, o3) = match load_slot(&self.strings, s3) {
            Ok(p) => p,
            Err(e) => {
                proof {
                    assert(first_slot_error(self.strings@, ev, 3) == Some(e));
                    lemma_first_slot_error_step(self.strings@, ev, 2);
                    lemma_first_slot_error_step(self.strings@, ev, 1);
                    lemma_first_slot_error_step(self.strings@, ev, 0);
                }
                return Err(e);
            },
        };
        let (weight, o4) = match load_slot(&self.strings, s4) {
            Ok(p) => p,
            Err(e) => {
                proof {
                    assert(first_slot_error(self.strings@, ev, 4) == Some(e));
                    lemma_first_slot_error_step(self.strings@, ev, 3);
                    lemma_first_slot_error_step(self.strings@, ev, 2);
                    lemma_first_slot_error_step(self.strings@, ev, 1);
                    lemma_first_slot_error_step(self.strings@, ev, 0);
                }
                return Err(e);
            },
        };
        let (copyright, o5) = match load_slot(&self.strings, s5) {
            Ok(p) => p,
            Err(e) => {
                proof {
                    assert(first_slot_error(self.strings@, ev, 5) == Some(e));
                    lemma_first_slot_error_step(self.strings@, ev, 4);
                    lemma_first_slot_error_step(self.strings@, ev, 3);
                    lemma_first_slot_error_step(self.strings@, ev, 2);
                    lemma_first_slot_error_step(self.strings@, ev, 1);
                    lemma_first_slot_error_step(self.strings@, ev, 0);
                }
                return Err(e);
            },
        };
        let (font_name, o6) = match load_slot(&self.strings, s6) {
            Ok(p) => p,
            Err(e) => {
                proof {
                    assert(first_slot_error(self.strings@, ev, 6) == Some(e));
                    lemma_first_slot_error_step(self.strings@, ev, 5);
                    lemma_first_slot_error_step(self.strings@, ev, 4);
                    lemma_first_slot_error_step(self.strings@, ev, 3);
                    lemma_first_slot_error_step(self.strings@, ev, 2);
                    lemma_first_slot_error_step(self.strings@, ev, 1);
                    lemma_first_slot_error_step(self.strings@, ev, 0);
                }
                return Err(e);
            },
        };
        let mut origs: Vec<Option<OrigString>> = Vec::new();
        origs.push(o0);
        origs.push(o1);
        origs.push(o2);
        origs.push(o3);
        origs.push(o4);
        origs.push(o5);
        origs.push(o6);
        let d = TopDictData {
            version,
            notice,
            full_name,
            family_name,
            weight,
            copyright,
            font_name,
            raw_entries: raws,
            origs,
        };
        proof {
            assert forall|k: int| 0 <= k < 7 implies #[trigger] slot_loaded(
                self.strings@,
                ev,
                d@,
                k,
            ) by {
                assert(d@.origs[k] == opt_orig_view(d.origs@[k]));
            }
        }
        Ok(d)
    }
}

/// Finding or appending one string over the model, exactly as `allocate`
/// behaves: the smallest matching standard identifier, else the first
/// matching custom one, else an append; `None` as the identifier marks a
/// capacity failure.
pub open spec fn alloc_model(elems: Seq<Seq<u8>>, tb: Seq<u8>) -> (Seq<Seq<u8>>, Option<u16>) {
    match spec_find_standard(tb, 0) {
        Some(sid) => (elems, Some(sid)),
        None => match spec_find_custom(elems, tb, 0) {
            Some(j) => (
                elems,
                if 391 + j <= 65535 {
                    Some((391 + j) as u16)
                } else {
                    None
                },
            ),
            None => if 391 + elems.len() <= 65535 && fits_index(elems.push(tb)) {
                (elems.push(tb), Some((391 + elems.len()) as u16))
            } else {
                (elems, None)
            },
        },
    }
}

/// `alloc_model` as a step that fails on capacity.
pub open spec fn alloc_or_none(elems: Seq<Seq<u8>>, tb: Seq<u8>) -> Option<
    (Seq<Seq<u8>>, Option<u16>),
> {
    let r = alloc_model(elems, tb);
    match r.1 {
        Some(sid) => Some((r.0, Some(sid))),
        None => None,
    }
}

/// Reconciling one string field: an absent field changes nothing; a field
/// whose text still matches its originally-resolved bytes keeps its
/// identifier without touching the string table; anything else goes through
/// allocation.
pub open spec fn process_slot(
    elems: Seq<Seq<u8>>,
    desired: Option<Seq<char>>,
    orig: Option<OrigModel>,
) -> Option<(Seq<Seq<u8>>, Option<u16>)> {
    match desired {
        None => Some((elems, None)),
        Some(text) => {
            let tb = encode_utf8(text);
            match orig {
                Some(o) => if o.bytes == tb {
                    Some((elems, Some(o.sid)))
                } else {
                    alloc_or_none(elems, tb)
                },
                None => alloc_or_none(elems, tb),
            }
        },
    }
}

/// Reconciling the first `k` slots in order: the string elements after all
/// allocations, and each slot's identifier.
pub open spec fn reconcile_upto(
    elems0: Seq<Seq<u8>>,
    fields: Seq<Option<Seq<char>>>,
    origs: Seq<Option<OrigModel>>,
    k: int,
) -> Option<(Seq<Seq<u8>>, Seq<Option<u16>>)>
    decreases k,
{
    if k <= 0 {
        Some((elems0, Seq::empty()))
    } else {
        match reconcile_upto(elems0, fields, origs, k - 1) {
            None => None,
            Some((elems, sids)) => match process_slot(elems, fields[k - 1], origs[k - 1]) {
                None => None,
                Some((elems2, sid)) => Some((elems2, sids.push(sid))),
            },
        }
    }
}

/// A capacity failure while reconciling never recovers at a later slot.
pub proof fn lemma_reconcile_none_mono(
    elems0: Seq<Seq<u8>>,
    fields: Seq<Option<Seq<char>>>,
    origs: Seq<Option<OrigModel>>,
    k: int,
    k2: int,
)
    requires
        k <= k2,
        reconcile_upto(elems0, fields, origs, k) is None,
    ensures
        reconcile_upto(elems0, fields, origs, k2) is None,
    decreases k2 - k,
{
    if k < k2 {
        lemma_reconcile_none_mono(elems0, fields, origs, k + 1, k2);
    }
}

/// The string-field entries rebuilt from the first `k` reconciled slots, in
/// slot order.
pub open spec fn appended_upto(sids: Seq<Option<u16>>, k: int) -> Seq<EntryModel>
    decreases k,
{
    if k <= 0 {
        Seq::empty()
    } else {
        appended_upto(sids, k - 1) + (match sids[k - 1] {
            None => Seq::<EntryModel>::empty(),
            Some(sid) => seq![field_entry(k - 1, sid)],
        })
    }
}

/// Every rebuilt string-field entry is well formed.
pub proof fn lemma_appended_upto_wf(sids: Seq<Option<u16>>, k: int)
    requires
        0 <= k <= 7,
    ensures
        entries_wf(appended_upto(sids, k)),
        appended_upto(sids, k).len() <= k,
    decreases k,
{
    if k > 0 {
        lemma_appended_upto_wf(sids, k - 1);
        let a = appended_upto(sids, k - 1);
        let b = match sids[k - 1] {
            None => Seq::<EntryModel>::empty(),
            Some(sid) => seq![field_entry(k - 1, sid)],
        };
        assert(appended_upto(sids, k) == a + b);
        assert(entries_wf(b));
        assert forall|i: int| 0 <= i < (a + b).len() implies entry_wf(#[trigger] (a + b)[i]) by {
            if i < a.len() {
                assert((a + b)[i] == a[i]);
                assert(entry_wf(a[i]));
            } else {
                assert((a + b)[i] == b[i - a.len()]);
                assert(entry_wf(b[i - a.len()]));
            }
        }
    }
}

/// The views of reconciled slot identifiers.
pub open spec fn sids_view(s: Seq<Option<StringId>>) -> Seq<Option<u16>> {
    s.map_values(|o: Option<StringId>| opt_sid_view(o))
}

/// The first extraction error among elements `i..` of an INDEX.
pub open spec fn first_element_error(m: IndexModel, i: int) -> Option<CffError>
    decreases m.count - i,
{
    if i < 0 || i >= m.count {
        None
    } else {
        match spec_get(m, i) {
            Ok(_) => first_element_error(m, i + 1),
            Err(e) => Some(e),
        }
    }
}

/// Extraction errors are unchanged by skipping extractable elements.
pub proof fn lemma_first_element_error_upto(m: IndexModel, lo: int, hi: int)
    requires
        0 <= lo <= hi,
        forall|j: int| lo <= j < hi ==> spec_get(m, j) is Ok,
    ensures
        first_element_error(m, lo) == first_element_error(m, hi),
    decreases hi - lo,
{
    if lo < hi {
        lemma_first_element_error_upto(m, lo + 1, hi);
    }
}

/// The elements of an INDEX from position `i` on, as extraction yields them.
pub open spec fn old_tail_elements(m: IndexModel, i: int) -> Seq<Seq<u8>>
    decreases m.count - i,
{
    if i < 0 || i >= m.count {
        Seq::empty()
    } else {
        seq![spec_get(m, i)->Ok_0] + old_tail_elements(m, i + 1)
    }
}

pub proof fn lemma_old_tail_elements_index(m: IndexModel, i: int)
    requires
        0 <= i <= m.count,
    ensures
        old_tail_elements(m, i).len() == m.count - i,
        forall|j: int|
            0 <= j < m.count - i ==> old_tail_elements(m, i)[j] == spec_get(m, i + j)->Ok_0,
    decreases m.count - i,
{
    if i < m.count {
        lemma_old_tail_elements_index(m, i + 1);
    }
}

/// Law (mutation de-duplication, unchanged value): setting a string field
/// to a value identical to its originally-resolved bytes keeps its
/// identifier and leaves the custom string table untouched.
pub proof fn lemma_unchanged_field_allocates_nothing(
    elems: Seq<Seq<u8>>,
    text: Seq<char>,
    o: OrigModel,
)
    requires
        o.bytes == encode_utf8(text),
    ensures
        process_slot(elems, Some(text), Some(o)) == Some((elems, Some(o.sid))),
{
}

/// Law (mutation de-duplication, fresh value): setting a string field to a
/// value matching neither a standard string, nor an existing custom string,
/// nor its original value appends exactly one custom string, and the new
/// identifier is 391 plus the old custom count.
pub proof fn lemma_fresh_value_appends_exactly_one(
    elems: Seq<Seq<u8>>,
    text: Seq<char>,
    orig: Option<OrigModel>,
)
    requires
        forall|i: int| 0 <= i < 391 ==> spec_standard_bytes(i) != encode_utf8(text),
        forall|j: int| 0 <= j < elems.len() ==> elems[j] != encode_utf8(text),
        match orig {
            Some(o) => o.bytes != encode_utf8(text),
            None => true,
        },
        391 + elems.len() <= 65535,
        fits_index(elems.push(encode_utf8(text))),
    ensures
        process_slot(elems, Some(text), orig) == Some(
            (elems.push(encode_utf8(text)), Some((391 + elems.len()) as u16)),
        ),
{
    lemma_find_standard_none(encode_utf8(text), 0);
    lemma_find_custom_none(elems, encode_utf8(text), 0);
}

/// The string field entry for a slot.
fn make_field_entry(k: usize, sid: StringId) -> (e: Entry)
    requires
        k < 7,
    ensures
        e@ == field_entry(k as int, sid.0),
{
    if k == 0 {
        Entry::Version(sid)
    } else if k == 1 {
        Entry::Notice(sid)
    } else if k == 2 {
        Entry::FullName(sid)
    } else if k == 3 {
        Entry::FamilyName(sid)
    } else if k == 4 {
        Entry::Weight(sid)
    } else if k == 5 {
        Entry::Copyright(sid)
    } else {
        Entry::FontName(sid)
    }
}

/// The named string field of a slot.
fn field_of<'a>(d: &'a TopDictData, k: usize) -> (r: &'a Option<String>)
    requires
        k < 7,
    ensures
        opt_text_view(r) == d@.fields[k as int],
{
    if k == 0 {
        &d.version
    } else if k == 1 {
        &d.notice
    } else if k == 2 {
        &d.full_name
    } else if k == 3 {
        &d.family_name
    } else if k == 4 {
        &d.weight
    } else if k == 5 {
        &d.copyright
    } else {
        &d.font_name
    }
}

impl Cff {
    /// Updates the first Top DICT from structured data.
    ///
    /// The seven string fields are reconciled against the string table in
    /// slot order: an absent field contributes nothing; a field whose text
    /// still matches its originally-resolved bytes keeps its identifier; any
    /// other value is found or appended with `allocate`, de-duplicating
    /// against the standard strings and the existing custom strings. The Top
    /// DICT is then rebuilt as the pass-through entries followed by the
    /// string-field entries, re-encoded with minimal operand widths, and the
    /// Top DICT INDEX is rebuilt around it with the minimal sufficient
    /// offset width; all other Top DICTs, the header, the Name INDEX and the
    /// Global Subroutine INDEX are kept unchanged. On an error after
    /// reconciliation has begun, the string table may already hold newly
    /// appended strings (it only ever grows); the Top DICT INDEX is only
    /// replaced on success.
    #[verifier::rlimit(100)]
    #[verifier::spinoff_prover]
    #[verifier::loop_isolation(false)]
    pub fn set_top_dict_data(&mut self, d: &TopDictData) -> (r: Result<(), CffError>)
        ensures
            final(self).header == old(self).header,
            final(self).names == old(self).names,
            final(self).global_subrs == old(self).global_subrs,
            old(self).strings@.wf() ==> final(self).strings@.wf(),
            r is Err ==> final(self).top_dicts == old(self).top_dicts,
            match r {
                Ok(()) => ({
                    let elems0 = old(self).strings@.elements();
                    &&& old(self).top_dicts@.count > 0
                    &&& old(self).strings@.wf()
                    &&& entries_wf(d@.raws)
                    &&& reconcile_upto(elems0, d@.fields, d@.origs, 7) is Some
                    &&& ({
                        let rc = reconcile_upto(elems0, d@.fields, d@.origs, 7)->Some_0;
                        let new_es = d@.raws + appended_upto(rc.1, 7);
                        &&& final(self).strings@.elements() =~= rc.0
                        &&& (rc.0 == elems0 ==> final(self).strings@ == old(self).strings@)
                        &&& final(self).top_dicts@.wf()
                        &&& final(self).top_dicts@.count == old(self).top_dicts@.count
                        &&& final(self).top_dicts@.elements()[0] == spec_encode_entries(new_es)
                        &&& forall|i: int|
                            1 <= i < old(self).top_dicts@.count
                                ==> final(self).top_dicts@.elements()[i] == spec_get(
                                old(self).top_dicts@,
                                i,
                            )->Ok_0
                        &&& spec_decode_entries(spec_encode_entries(new_es), Seq::empty())
                            == Some(new_es)
                    })
                }),
                Err(e) => {
                    let elems0 = old(self).strings@.elements();
                    ||| (old(self).top_dicts@.count == 0 && e == CffError::NoTopDict)
                    ||| (old(self).top_dicts@.count > 0 && !old(self).strings@.wf() && e
                        == CffError::MalformedOffsets)
                    ||| (old(self).top_dicts@.count > 0 && old(self).strings@.wf() && !entries_wf(
                        d@.raws,
                    ) && e == CffError::MalformedDictOperand)
                    ||| (old(self).top_dicts@.count > 0 && old(self).strings@.wf() && entries_wf(
                        d@.raws,
                    ) && reconcile_upto(elems0, d@.fields, d@.origs, 7) is None && e
                        == CffError::LimitExceeded)
                    ||| (old(self).top_dicts@.count > 0 && old(self).strings@.wf() && entries_wf(
                        d@.raws,
                    ) && reconcile_upto(elems0, d@.fields, d@.origs, 7) is Some
                        && first_element_error(old(self).top_dicts@, 1) == Some(e))
                    ||| (old(self).top_dicts@.count > 0 && old(self).strings@.wf() && entries_wf(
                        d@.raws,
                    ) && reconcile_upto(elems0, d@.fields, d@.origs, 7) is Some
                        && first_element_error(old(self).top_dicts@, 1) is None && ({
                        let rc = reconcile_upto(elems0, d@.fields, d@.origs, 7)->Some_0;
                        let new_es = d@.raws + appended_upto(rc.1, 7);
                        !fits_index(
                            seq![spec_encode_entries(new_es)] + old_tail_elements(
                                old(self).top_dicts@,
                                1,
                            ),
                        ) && e == CffError::LimitExceeded
                    }))
                },
            },
    {
        let ghost dm = d@;
        let ghost elems0 = self.strings@.elements();
        if self.top_dicts.count == 0 {
            return Err(CffError::NoTopDict);
        }
        if !self.strings.is_valid() {
            return Err(CffError::MalformedOffsets);
        }
        let mut vi: usize = 0;
        while vi < d.raw_entries.len()
            invariant
                vi <= d.raw_entries@.len(),
                forall|j: int| 0 <= j < vi ==> entry_wf(#[trigger] dm.raws[j]),
            decreases d.raw_entries@.len() - vi,
        {
            if !entry_is_valid(&d.raw_entries[vi]) {
                proof {
                    assert(dm.raws[vi as int] == d.raw_entries@[vi as int]@);
                }
                return Err(CffError::MalformedDictOperand);
            }
            proof {
                assert(dm.raws[vi as int] == d.raw_entries@[vi as int]@);
            }
            vi += 1;
        }
        proof {
            assert(entries_wf(dm.raws));
        }
        let mut sids: Vec<Option<StringId>> = Vec::new();
        let mut k: usize = 0;
        proof {
            assert(sids_view(sids@) =~= Seq::<Option<u16>>::empty());
        }
        while k < 7
            invariant
                k <= 7,
                sids@.len() == k,
                self.header == old(self).header,
                self.names == old(self).names,
                self.top_dicts == old(self).top_dicts,
                self.global_subrs == old(self).global_subrs,
                self.strings@.wf(),
                reconcile_upto(elems0, dm.fields, dm.origs, k as int) is Some,
                reconcile_upto(elems0, dm.fields, dm.origs, k as int)->Some_0.0
                    =~= self.strings@.elements(),
                reconcile_upto(elems0, dm.fields, dm.origs, k as int)->Some_0.1 =~= sids_view(
                    sids@,
                ),
                elems0.len() <= self.strings@.elements().len(),
                self.strings@.elements().len() == elems0.len() ==> self.strings@ == old(
                    self,
                ).strings@,
            decreases 7 - k,
        {
            let ghost pre_elems = self.strings@.elements();
            let ghost pre_sids = sids_view(sids@);
            proof {
                let t = reconcile_upto(elems0, dm.fields, dm.origs, k as int)->Some_0;
                assert(t == (t.0, t.1));
                assert(reconcile_upto(elems0, dm.fields, dm.origs, k as int) == Some(
                    (pre_elems, pre_sids),
                ));
            }
            let desired = field_of(d, k);
            match desired {
                None => {
                    sids.push(None);
                    proof {
                        assert(process_slot(pre_elems, dm.fields[k as int], dm.origs[k as int])
                            == Some((pre_elems, None::<u16>)));
                        assert(sids_view(sids@) =~= pre_sids.push(None));
                    }
                },
                Some(text) => {
                    let tb = text.as_str().as_bytes_vec();
                    proof {
                        assert(tb@ == encode_utf8(text@));
                    }
                    let mut kept: Option<StringId> = None;
                    if k < d.origs.len() {
                        match &d.origs[k] {
                            Some(o) => {
                                if bytes_eq(&o.bytes, &tb) {
                                    kept = Some(o.sid);
                                }
                            },
                            None => {},
                        }
                    }
                    match kept {
                        Some(sid) => {
                            sids.push(Some(sid));
                            proof {
                                assert(dm.origs[k as int] matches Some(om) && om.bytes == tb@
                                    && om.sid == sid.0);
                                assert(process_slot(
                                    pre_elems,
                                    dm.fields[k as int],
                                    dm.origs[k as int],
                                ) == Some((pre_elems, Some(sid.0))));
                                assert(sids_view(sids@) =~= pre_sids.push(Some(sid.0)));
                            }
                        },
                        None => {
                            match allocate(&mut self.strings, &tb) {
                                Ok(sid) => {
                                    sids.push(Some(sid));
                                    proof {
                                        assert(alloc_model(pre_elems, tb@) == (
                                            self.strings@.elements(),
                                            Some(sid.0),
                                        ));
                                        assert(process_slot(
                                            pre_elems,
                                            dm.fields[k as int],
                                            dm.origs[k as int],
                                        ) == Some((self.strings@.elements(), Some(sid.0))));
                                        assert(sids_view(sids@) =~= pre_sids.push(Some(sid.0)));
                                    }
                                },
                                Err(_) => {
                                    proof {
                                        assert(alloc_model(pre_elems, tb@).1 is None);
                                        assert(process_slot(
                                            pre_elems,
                                            dm.fields[k as int],
                                            dm.origs[k as int],
                                        ) is None);
                                        assert(reconcile_upto(
                                            elems0,
                                            dm.fields,
                                            dm.origs,
                                            k + 1,
                                        ) is None);
                                        lemma_reconcile_none_mono(
                                            elems0,
                                            dm.fields,
                                            dm.origs,
                                            k + 1,
                                            7,
                                        );
                                    }
                                    return Err(CffError::LimitExceeded);
                                },
                            }
                        },
                    }
                },
            }
            k += 1;
        }
        let ghost rc = reconcile_upto(elems0, dm.fields, dm.origs, 7)->Some_0;
        let ghost sids_v = sids_view(sids@);
        proof {
            if rc.0 == elems0 {
                assert(self.strings@.elements().len() == elems0.len());
            }
        }
        let ghost new_es = dm.raws + appended_upto(sids_v, 7);
        let mut dict_bytes = match encode_entries(&d.raw_entries) {
            Ok(b) => b,
            Err(e) => {
                proof {
                    assert(false);
                }
                return Err(e);
            },
        };
        let mut fvec: Vec<Entry> = Vec::new();
        let mut k2: usize = 0;
        proof {
            assert(entries_view(fvec@) =~= appended_upto(sids_v, 0));
        }
        while k2 < 7
            invariant
                k2 <= 7,
                entries_view(fvec@) =~= appended_upto(sids_v, k2 as int),
                forall|j: int| 0 <= j < fvec@.len() ==> entry_wf(#[trigger] entries_view(fvec@)[j]),
            decreases 7 - k2,
        {
            let ghost pre = entries_view(fvec@);
            match sids[k2] {
                None => {
                    proof {
                        assert(appended_upto(sids_v, k2 as int + 1) =~= pre);
                    }
                },
                Some(sid) => {
                    let e = make_field_entry(k2, sid);
                    fvec.push(e);
                    proof {
                        assert(entries_view(fvec@) =~= pre.push(e@));
                        assert(appended_upto(sids_v, k2 as int + 1) =~= pre.push(
                            field_entry(k2 as int, sid.0),
                        ));
                    }
                },
            }
            k2 += 1;
        }
        let fbytes = match encode_entries(&fvec) {
            Ok(b) => b,
            Err(e) => {
                proof {
                    assert(false);
                }
                return Err(e);
            },
        };
        push_bytes(&mut dict_bytes, &fbytes);
        proof {
            lemma_encode_entries_concat(dm.raws, appended_upto(sids_v, 7));
            assert(dict_bytes@ == spec_encode_entries(new_es));
            lemma_appended_upto_wf(sids_v, 7);
            assert forall|j: int| 0 <= j < new_es.len() implies entry_wf(#[trigger] new_es[j]) by {
                if j < dm.raws.len() {
                    assert(new_es[j] == dm.raws[j]);
                } else {
                    assert(new_es[j] == appended_upto(sids_v, 7)[j - dm.raws.len()]);
                }
            }
            lemma_decode_of_encode_entries(new_es);
        }
        let cnt = self.top_dicts.count as usize;
        let mut els: Vec<Vec<u8>> = Vec::new();
        els.push(dict_bytes);
        let mut i2: usize = 1;
        while i2 < cnt
            invariant
                1 <= i2 <= cnt,
                els@.len() == i2,
                byte_views(els@)[0] == spec_encode_entries(new_es),
                forall|j: int| 1 <= j < i2 ==> (#[trigger] spec_get(self.top_dicts@, j)) is Ok,
                forall|j: int|
                    1 <= j < i2 ==> #[trigger] byte_views(els@)[j] == spec_get(
                        self.top_dicts@,
                        j,
                    )->Ok_0,
            decreases cnt - i2,
        {
            match self.top_dicts.get(i2) {
                Ok(v) => {
                    let ghost pre_els = els@;
                    let ghost gv = v@;
                    els.push(v);
                    proof {
                        assert(els@[i2 as int]@ == gv);
                        assert(byte_views(els@)[0] == els@[0]@);
                        assert(els@[0] == pre_els[0]);
                        assert(byte_views(pre_els)[0] == pre_els[0]@);
                        assert forall|j: int|
                            1 <= j < i2 + 1 implies (#[trigger] spec_get(
                            self.top_dicts@,
                            j,
                        )) is Ok by {}
                        assert forall|j: int|
                            1 <= j < i2 + 1 implies #[trigger] byte_views(els@)[j] == spec_get(
                            self.top_dicts@,
                            j,
                        )->Ok_0 by {
                            assert(byte_views(els@)[j] == els@[j]@);
                            if j < i2 {
                                assert(els@[j] == pre_els[j]);
                                assert(byte_views(pre_els)[j] == pre_els[j]@);
                            }
                        }
                    }
                },
                Err(e) => {
                    proof {
                        lemma_first_element_error_upto(self.top_dicts@, 1, i2 as int);
                    }
                    return Err(e);
                },
            }
            i2 += 1;
        }
        proof {
            lemma_first_element_error_upto(self.top_dicts@, 1, cnt as int);
            lemma_old_tail_elements_index(self.top_dicts@, 1);
            assert(byte_views(els@) =~= seq![spec_encode_entries(new_es)] + old_tail_elements(
                self.top_dicts@,
                1,
            ));
        }
        match Index::from_elements(&els) {
            Ok(ix) => {
                self.top_dicts = ix;
                proof {
                    assert(final(self).top_dicts@.elements() =~= byte_views(els@));
                }
                Ok(())
            },
            Err(e) => {
                return Err(e);
            },
        }
    }
}

/// Law: end-to-end round trip. Whatever table a byte stream parses to,
/// serializing that table with no mutation and parsing the output yields the
/// identical table: the same entry counts in every INDEX and identically
/// resolving strings.
pub proof fn lemma_from_binary_to_binary_roundtrip(b: Seq<u8>)
    requires
        spec_from_binary(b) is Ok,
    ensures
        spec_from_binary(spec_to_binary(spec_from_binary(b)->Ok_0.0)) == Ok::<
            (CffModel, int),
            CffParseError,
        >(
            (
                spec_from_binary(b)->Ok_0.0,
                spec_to_binary(spec_from_binary(b)->Ok_0.0).len() as int,
            ),
        ),
{
    lemma_from_binary_wf(b);
    lemma_to_binary_from_binary(spec_from_binary(b)->Ok_0.0);
}

/// Law: byte fidelity of the unmodified table. Serializing the table a
/// byte stream parses to, with no mutation, reproduces exactly the bytes
/// the parse consumed.
#[verifier::rlimit(100)]
#[verifier::spinoff_prover]
pub proof fn lemma_from_binary_bytes_exact(b: Seq<u8>)
    requires
        spec_from_binary(b) is Ok,
    ensures
        spec_to_binary(spec_from_binary(b)->Ok_0.0) =~= b.take(spec_from_binary(b)->Ok_0.1),
{
    let (c, n) = spec_from_binary(b)->Ok_0;
    let n0 = spec_parse_header(b)->Ok_0.1;
    lemma_parse_header_exact(b);
    let n1 = spec_parse(b.skip(n0))->Ok_0.1;
    crate::index::lemma_parse_serialize_exact(b.skip(n0));
    let n2 = spec_parse(b.skip(n0 + n1))->Ok_0.1;
    crate::index::lemma_parse_serialize_exact(b.skip(n0 + n1));
    let n3 = spec_parse(b.skip(n0 + n1 + n2))->Ok_0.1;
    crate::index::lemma_parse_serialize_exact(b.skip(n0 + n1 + n2));
    let n4 = spec_parse(b.skip(n0 + n1 + n2 + n3))->Ok_0.1;
    crate::index::lemma_parse_serialize_exact(b.skip(n0 + n1 + n2 + n3));
    let hb = spec_serialize_header(c.header);
    let s1 = spec_serialize(c.names);
    let s2 = spec_serialize(c.top_dicts);
    let s3 = spec_serialize(c.strings);
    let s4 = spec_serialize(c.global_subrs);
    assert(hb =~= b.take(n0));
    assert(s1 =~= b.skip(n0).take(n1));
    assert(s2 =~= b.skip(n0 + n1).take(n2));
    assert(s3 =~= b.skip(n0 + n1 + n2).take(n3));
    assert(s4 =~= b.skip(n0 + n1 + n2 + n3).take(n4));
    assert(hb.len() == n0 && s1.len() == n1 && s2.len() == n2 && s3.len() == n3 && s4.len() == n4);
    assert(n == n0 + n1 + n2 + n3 + n4);
    assert forall|p: int| 0 <= p < n implies spec_to_binary(c)[p] == b[p] by {
        if p < n0 {
            assert(spec_to_binary(c)[p] == hb[p]);
            assert(hb[p] == b.take(n0)[p]);
        } else if p < n0 + n1 {
            assert(spec_to_binary(c)[p] == s1[p - n0]);
            assert(s1[p - n0] == b.skip(n0).take(n1)[p - n0]);
        } else if p < n0 + n1 + n2 {
            assert(spec_to_binary(c)[p] == s2[p - n0 - n1]);
            assert(s2[p - n0 - n1] == b.skip(n0 + n1).take(n2)[p - n0 - n1]);
        } else if p < n0 + n1 + n2 + n3 {
            assert(spec_to_binary(c)[p] == s3[p - n0 - n1 - n2]);
            assert(s3[p - n0 - n1 - n2] == b.skip(n0 + n1 + n2).take(n3)[p - n0 - n1 - n2]);
        } else {
            assert(spec_to_binary(c)[p] == s4[p - n0 - n1 - n2 - n3]);
            assert(s4[p - n0 - n1 - n2 - n3] == b.skip(n0 + n1 + n2 + n3).take(n4)[p - n0 - n1
                - n2 - n3]);
        }
    }
    assert(spec_to_binary(c).len() == n);
    assert(spec_to_binary(c) =~= b.take(n));
}

} // verus!
