//! The Top DICT entry codec: PostScript-DICT-style operand/operator pairs.
//!
//! A DICT byte stream is a sequence of entries; each entry is zero or more
//! numeric operands followed by a one- or two-byte operator. Operators of the
//! closed Top DICT set decode to typed entries; unrecognized operators are
//! preserved as raw entries so that re-encoding keeps every field
//! (round-trip fidelity is this codec's key law). Duplicate operators are
//! allowed in a stream; consumers of the decoded list apply a last-wins
//! policy, matching common PostScript DICT interpreter behaviour.

use vstd::prelude::*;
use vstd::slice::slice_index_get;

use crate::error::CffError;
use crate::offsets::{
    be_bytes, be_value, lemma_be_bytes_explicit, lemma_be_bytes_len, lemma_be_roundtrip,
    lemma_pow256_values,
};

verus! {

/// A string identifier (SID). Values below 391 name standard strings; larger
/// values index the font's custom String INDEX at `value - 391`.
#[derive(Clone, Copy, Debug, PartialEq, Eq, Structural)]
pub struct StringId(pub u16);

/// A numeric DICT operand: either an integer, or a real number kept as its
/// raw binary-coded-decimal nibble bytes (everything after the 0x1e marker up
/// to and including the terminating byte), which preserves the exact encoding
/// across a round trip.
#[derive(Clone, Debug, PartialEq, Eq)]
pub enum DictNumber {
    Int(i32),
    Real(Vec<u8>),
}

/// An operator that is not part of the closed Top DICT set, preserved with
/// its operands. Operator codes below 256 are one-byte operators; codes
/// `3072 + b` stand for the two-byte escape sequence `12 b`.
#[derive(Clone, Debug, PartialEq, Eq)]
pub struct RawEntry {
    pub operator: u16,
    pub operands: Vec<DictNumber>,
}

/// One Top DICT entry: the closed set of typed fields, plus `Raw` for
/// pass-through preservation of anything else.
#[derive(Clone, Debug, PartialEq, Eq)]
pub enum Entry {
    Version(StringId),
    Notice(StringId),
    FullName(StringId),
    FamilyName(StringId),
    Weight(StringId),
    Copyright(StringId),
    FontName(StringId),
    FontBbox(Vec<DictNumber>),
    FontMatrix(Vec<DictNumber>),
    ItalicAngle(DictNumber),
    UnderlinePosition(DictNumber),
    UnderlineThickness(DictNumber),
    StrokeWidth(DictNumber),
    IsFixedPitch(bool),
    PaintType(i32),
    CharstringType(i32),
    UniqueId(i32),
    CharstringsOffset(u32),
    Charset(u32),
    Encoding(u32),
    PrivateDictRange { size: u32, offset: u32 },
    FdArrayOffset(u32),
    FdSelectOffset(u32),
    VariationStoreOffset(u32),
    Raw(RawEntry),
}

/// The model of a numeric operand.
#[verifier::ext_equal]
pub ghost enum NumModel {
    Int(int),
    Real(Seq<u8>),
}

/// The model of an entry.
#[verifier::ext_equal]
pub ghost enum EntryModel {
    Version(u16),
    Notice(u16),
    FullName(u16),
    FamilyName(u16),
    Weight(u16),
    Copyright(u16),
    FontName(u16),
    FontBbox(Seq<NumModel>),
    FontMatrix(Seq<NumModel>),
    ItalicAngle(NumModel),
    UnderlinePosition(NumModel),
    UnderlineThickness(NumModel),
    StrokeWidth(NumModel),
    IsFixedPitch(bool),
    PaintType(int),
    CharstringType(int),
    UniqueId(int),
    CharstringsOffset(u32),
    Charset(u32),
    Encoding(u32),
    PrivateDictRange { size: u32, offset: u32 },
    FdArrayOffset(u32),
    FdSelectOffset(u32),
    VariationStoreOffset(u32),
    Raw(u16, Seq<NumModel>),
}

impl View for DictNumber {
    type V = NumModel;

    open spec fn view(&self) -> NumModel {
        match self {
            DictNumber::Int(v) => NumModel::Int(*v as int),
            DictNumber::Real(s) => NumModel::Real(s@),
        }
    }
}

/// The views of a sequence of operands.
pub open spec fn nums_view(s: Seq<DictNumber>) -> Seq<NumModel> {
    s.map_values(|n: DictNumber| n@)
}

impl View for Entry {
    type V = EntryModel;

    open spec fn view(&self) -> EntryModel {
        match self {
            Entry::Version(s) => EntryModel::Version(s.0),
            Entry::Notice(s) => EntryModel::Notice(s.0),
            Entry::FullName(s) => EntryModel::FullName(s.0),
            Entry::FamilyName(s) => EntryModel::FamilyName(s.0),
            Entry::Weight(s) => EntryModel::Weight(s.0),
            Entry::Copyright(s) => EntryModel::Copyright(s.0),
            Entry::FontName(s) => EntryModel::FontName(s.0),
            Entry::FontBbox(v) => EntryModel::FontBbox(nums_view(v@)),
            Entry::FontMatrix(v) => EntryModel::FontMatrix(nums_view(v@)),
            Entry::ItalicAngle(n) => EntryModel::ItalicAngle(n@),
            Entry::UnderlinePosition(n) => EntryModel::UnderlinePosition(n@),
            Entry::UnderlineThickness(n) => EntryModel::UnderlineThickness(n@),
            Entry::StrokeWidth(n) => EntryModel::StrokeWidth(n@),
            Entry::IsFixedPitch(b) => EntryModel::IsFixedPitch(*b),
            Entry::PaintType(v) => EntryModel::PaintType(*v as int),
            Entry::CharstringType(v) => EntryModel::CharstringType(*v as int),
            Entry::UniqueId(v) => EntryModel::UniqueId(*v as int),
            Entry::CharstringsOffset(o) => EntryModel::CharstringsOffset(*o),
            Entry::Charset(o) => EntryModel::Charset(*o),
            Entry::Encoding(o) => EntryModel::Encoding(*o),
            Entry::PrivateDictRange { size, offset } => EntryModel::PrivateDictRange {
                size: *size,
                offset: *offset,
            },
            Entry::FdArrayOffset(o) => EntryModel::FdArrayOffset(*o),
            Entry::FdSelectOffset(o) => EntryModel::FdSelectOffset(*o),
            Entry::VariationStoreOffset(o) => EntryModel::VariationStoreOffset(*o),
            Entry::Raw(r) => EntryModel::Raw(r.operator, nums_view(r.operands@)),
        }
    }
}

/// The views of a sequence of entries.
pub open spec fn entries_view(s: Seq<Entry>) -> Seq<EntryModel> {
    s.map_values(|e: Entry| e@)
}

// One-byte operator codes of the closed Top DICT set.
pub const OP_VERSION: u16 = 0;
pub const OP_NOTICE: u16 = 1;
pub const OP_FULL_NAME: u16 = 2;
pub const OP_FAMILY_NAME: u16 = 3;
pub const OP_WEIGHT: u16 = 4;
pub const OP_FONT_BBOX: u16 = 5;
pub const OP_UNIQUE_ID: u16 = 13;
pub const OP_CHARSET: u16 = 15;
pub const OP_ENCODING: u16 = 16;
pub const OP_CHARSTRINGS: u16 = 17;
pub const OP_PRIVATE: u16 = 18;
pub const OP_VSTORE: u16 = 24;

// Two-byte operator codes, written as 3072 + second byte.
pub const OP_COPYRIGHT: u16 = 3072;
pub const OP_IS_FIXED_PITCH: u16 = 3073;
pub const OP_ITALIC_ANGLE: u16 = 3074;
pub const OP_UNDERLINE_POSITION: u16 = 3075;
pub const OP_UNDERLINE_THICKNESS: u16 = 3076;
pub const OP_PAINT_TYPE: u16 = 3077;
pub const OP_CHARSTRING_TYPE: u16 = 3078;
pub const OP_FONT_MATRIX: u16 = 3079;
pub const OP_STROKE_WIDTH: u16 = 3080;
pub const OP_FD_ARRAY: u16 = 3108;
pub const OP_FD_SELECT: u16 = 3109;
pub const OP_FONT_NAME: u16 = 3110;

/// Bytes that begin a numeric operand.
pub open spec fn spec_operand_start(b: u8) -> bool {
    b == 28 || b == 29 || b == 30 || (32 <= b && b <= 254)
}

/// The recognized one-byte operators.
pub open spec fn recognized_single(op: u16) -> bool {
    op == OP_VERSION || op == OP_NOTICE || op == OP_FULL_NAME || op == OP_FAMILY_NAME
        || op == OP_WEIGHT || op == OP_FONT_BBOX || op == OP_UNIQUE_ID || op == OP_CHARSET
        || op == OP_ENCODING || op == OP_CHARSTRINGS || op == OP_PRIVATE || op == OP_VSTORE
}

/// The recognized two-byte operators.
pub open spec fn recognized_escaped(op: u16) -> bool {
    op == OP_COPYRIGHT || op == OP_IS_FIXED_PITCH || op == OP_ITALIC_ANGLE
        || op == OP_UNDERLINE_POSITION || op == OP_UNDERLINE_THICKNESS || op == OP_PAINT_TYPE
        || op == OP_CHARSTRING_TYPE || op == OP_FONT_MATRIX || op == OP_STROKE_WIDTH
        || op == OP_FD_ARRAY || op == OP_FD_SELECT || op == OP_FONT_NAME
}

/// Any operator code that can appear in a stream: a one-byte code that is not
/// an operand start and not the escape, or any escaped code.
pub open spec fn valid_op_code(op: u16) -> bool {
    ||| (op < 256 && !spec_operand_start(op as u8) && op != 12)
    ||| (3072 <= op && op <= 3327)
}

/// An operator preserved as raw: a valid code outside the recognized set.
pub open spec fn raw_op_wf(op: u16) -> bool {
    valid_op_code(op) && !recognized_single(op) && !recognized_escaped(op)
}

/// Whether a byte carries an 0xF nibble, which terminates a real number.
pub open spec fn has_f_nibble(x: u8) -> bool {
    x / 16 == 15 || x % 16 == 15
}

/// The shape a stored real number must have so that decoding consumes exactly
/// these bytes: nonempty, terminator nibble in the last byte only.
pub open spec fn real_wf(s: Seq<u8>) -> bool {
    &&& s.len() >= 1
    &&& has_f_nibble(s[s.len() - 1])
    &&& forall|i: int| 0 <= i < s.len() - 1 ==> !has_f_nibble(#[trigger] s[i])
}

/// A well-formed operand: integers within the 5-byte encoding's range, reals
/// in stored shape.
pub open spec fn num_wf(n: NumModel) -> bool {
    match n {
        NumModel::Int(v) => -2147483648 <= v <= 2147483647,
        NumModel::Real(s) => real_wf(s),
    }
}

pub open spec fn nums_wf(s: Seq<NumModel>) -> bool {
    forall|i: int| 0 <= i < s.len() ==> num_wf(#[trigger] s[i])
}

/// Offset-valued operands are encoded as non-negative integers.
pub open spec fn offset_val_wf(o: u32) -> bool {
    o <= 2147483647
}

/// A well-formed entry: one that `spec_encode_entry` can represent and that
/// decoding the result recovers unchanged.
pub open spec fn entry_wf(e: EntryModel) -> bool {
    match e {
        EntryModel::Version(_) => true,
        EntryModel::Notice(_) => true,
        EntryModel::FullName(_) => true,
        EntryModel::FamilyName(_) => true,
        EntryModel::Weight(_) => true,
        EntryModel::Copyright(_) => true,
        EntryModel::FontName(_) => true,
        EntryModel::FontBbox(v) => v.len() == 4 && nums_wf(v),
        EntryModel::FontMatrix(v) => v.len() == 6 && nums_wf(v),
        EntryModel::ItalicAngle(n) => num_wf(n),
        EntryModel::UnderlinePosition(n) => num_wf(n),
        EntryModel::UnderlineThickness(n) => num_wf(n),
        EntryModel::StrokeWidth(n) => num_wf(n),
        EntryModel::IsFixedPitch(_) => true,
        EntryModel::PaintType(v) => -2147483648 <= v <= 2147483647,
        EntryModel::CharstringType(v) => -2147483648 <= v <= 2147483647,
        EntryModel::UniqueId(v) => -2147483648 <= v <= 2147483647,
        EntryModel::CharstringsOffset(o) => offset_val_wf(o),
        EntryModel::Charset(o) => offset_val_wf(o),
        EntryModel::Encoding(o) => offset_val_wf(o),
        EntryModel::PrivateDictRange { size, offset } => offset_val_wf(size) && offset_val_wf(
            offset,
        ),
        EntryModel::FdArrayOffset(o) => offset_val_wf(o),
        EntryModel::FdSelectOffset(o) => offset_val_wf(o),
        EntryModel::VariationStoreOffset(o) => offset_val_wf(o),
        EntryModel::Raw(op, ops) => raw_op_wf(op) && nums_wf(ops),
    }
}

pub open spec fn entries_wf(es: Seq<EntryModel>) -> bool {
    forall|i: int| 0 <= i < es.len() ==> entry_wf(#[trigger] es[i])
}

/// The two's-complement 16-bit image of a small integer.
pub open spec fn to_u16_image(v: int) -> int {
    if v < 0 {
        v + 65536
    } else {
        v
    }
}

/// The two's-complement 32-bit image of an integer.
pub open spec fn to_u32_image(v: int) -> int {
    if v < 0 {
        v + 4294967296
    } else {
        v
    }
}

/// The signed value of a 16-bit image.
pub open spec fn from_u16_image(n: int) -> int {
    if n >= 32768 {
        n - 65536
    } else {
        n
    }
}

/// The signed value of a 32-bit image.
pub open spec fn from_u32_image(n: int) -> int {
    if n >= 2147483648 {
        n - 4294967296
    } else {
        n
    }
}

/// The minimal integer operand encoding, exactly as the DICT grammar defines
/// the five integer forms.
pub open spec fn spec_encode_int(v: int) -> Seq<u8> {
    if -107 <= v <= 107 {
        seq![(v + 139) as u8]
    } else if 108 <= v <= 1131 {
        seq![((v - 108) / 256 + 247) as u8, ((v - 108) % 256) as u8]
    } else if -1131 <= v <= -108 {
        seq![((-v - 108) / 256 + 251) as u8, ((-v - 108) % 256) as u8]
    } else if -32768 <= v <= 32767 {
        seq![28u8] + be_bytes(to_u16_image(v), 2)
    } else {
        seq![29u8] + be_bytes(to_u32_image(v), 4)
    }
}

/// The encoding of one operand.
pub open spec fn spec_encode_num(n: NumModel) -> Seq<u8> {
    match n {
        NumModel::Int(v) => spec_encode_int(v),
        NumModel::Real(s) => seq![30u8] + s,
    }
}

/// The encoding of an operand list, in order.
pub open spec fn spec_encode_operands(ops: Seq<NumModel>) -> Seq<u8>
    decreases ops.len(),
{
    if ops.len() == 0 {
        Seq::empty()
    } else {
        spec_encode_num(ops[0]) + spec_encode_operands(ops.skip(1))
    }
}

/// The encoding of an operator code.
pub open spec fn spec_encode_op(op: u16) -> Seq<u8> {
    if op < 256 {
        seq![op as u8]
    } else {
        seq![12u8, (op % 256) as u8]
    }
}

/// The operator code an entry encodes with.
pub open spec fn entry_opcode(e: EntryModel) -> u16 {
    match e {
        EntryModel::Version(_) => OP_VERSION,
        EntryModel::Notice(_) => OP_NOTICE,
        EntryModel::FullName(_) => OP_FULL_NAME,
        EntryModel::FamilyName(_) => OP_FAMILY_NAME,
        EntryModel::Weight(_) => OP_WEIGHT,
        EntryModel::Copyright(_) => OP_COPYRIGHT,
        EntryModel::FontName(_) => OP_FONT_NAME,
        EntryModel::FontBbox(_) => OP_FONT_BBOX,
        EntryModel::FontMatrix(_) => OP_FONT_MATRIX,
        EntryModel::ItalicAngle(_) => OP_ITALIC_ANGLE,
        EntryModel::UnderlinePosition(_) => OP_UNDERLINE_POSITION,
        EntryModel::UnderlineThickness(_) => OP_UNDERLINE_THICKNESS,
        EntryModel::StrokeWidth(_) => OP_STROKE_WIDTH,
        EntryModel::IsFixedPitch(_) => OP_IS_FIXED_PITCH,
        EntryModel::PaintType(_) => OP_PAINT_TYPE,
        EntryModel::CharstringType(_) => OP_CHARSTRING_TYPE,
        EntryModel::UniqueId(_) => OP_UNIQUE_ID,
        EntryModel::CharstringsOffset(_) => OP_CHARSTRINGS,
        EntryModel::Charset(_) => OP_CHARSET,
        EntryModel::Encoding(_) => OP_ENCODING,
        EntryModel::PrivateDictRange { .. } => OP_PRIVATE,
        EntryModel::FdArrayOffset(_) => OP_FD_ARRAY,
        EntryModel::FdSelectOffset(_) => OP_FD_SELECT,
        EntryModel::VariationStoreOffset(_) => OP_VSTORE,
        EntryModel::Raw(op, _) => op,
    }
}

/// The operand list an entry encodes with.
pub open spec fn entry_operands(e: EntryModel) -> Seq<NumModel> {
    match e {
        EntryModel::Version(s) => seq![NumModel::Int(s as int)],
        EntryModel::Notice(s) => seq![NumModel::Int(s as int)],
        EntryModel::FullName(s) => seq![NumModel::Int(s as int)],
        EntryModel::FamilyName(s) => seq![NumModel::Int(s as int)],
        EntryModel::Weight(s) => seq![NumModel::Int(s as int)],
        EntryModel::Copyright(s) => seq![NumModel::Int(s as int)],
        EntryModel::FontName(s) => seq![NumModel::Int(s as int)],
        EntryModel::FontBbox(v) => v,
        EntryModel::FontMatrix(v) => v,
        EntryModel::ItalicAngle(n) => seq![n],
        EntryModel::UnderlinePosition(n) => seq![n],
        EntryModel::UnderlineThickness(n) => seq![n],
        EntryModel::StrokeWidth(n) => seq![n],
        EntryModel::IsFixedPitch(b) => seq![
            NumModel::Int(
                if b {
                    1
                } else {
                    0
                },
            ),
        ],
        EntryModel::PaintType(v) => seq![NumModel::Int(v)],
        EntryModel::CharstringType(v) => seq![NumModel::Int(v)],
        EntryModel::UniqueId(v) => seq![NumModel::Int(v)],
        EntryModel::CharstringsOffset(o) => seq![NumModel::Int(o as int)],
        EntryModel::Charset(o) => seq![NumModel::Int(o as int)],
        EntryModel::Encoding(o) => seq![NumModel::Int(o as int)],
        EntryModel::PrivateDictRange { size, offset } => seq![
            NumModel::Int(size as int),
            NumModel::Int(offset as int),
        ],
        EntryModel::FdArrayOffset(o) => seq![NumModel::Int(o as int)],
        EntryModel::FdSelectOffset(o) => seq![NumModel::Int(o as int)],
        EntryModel::VariationStoreOffset(o) => seq![NumModel::Int(o as int)],
        EntryModel::Raw(_, ops) => ops,
    }
}

/// The encoding of one entry: its operands, then its operator.
pub open spec fn spec_encode_entry(e: EntryModel) -> Seq<u8> {
    spec_encode_operands(entry_operands(e)) + spec_encode_op(entry_opcode(e))
}

/// The encoding of an entry list.
pub open spec fn spec_encode_entries(es: Seq<EntryModel>) -> Seq<u8>
    decreases es.len(),
{
    if es.len() == 0 {
        Seq::empty()
    } else {
        spec_encode_entry(es[0]) + spec_encode_entries(es.skip(1))
    }
}

/// Maps a recognized or raw operator applied to an operand stack to its
/// entry; `None` is an operand count or type mismatch.
pub open spec fn entry_from(op: u16, stack: Seq<NumModel>) -> Option<EntryModel> {
    if op == OP_VERSION || op == OP_NOTICE || op == OP_FULL_NAME || op == OP_FAMILY_NAME
        || op == OP_WEIGHT || op == OP_COPYRIGHT || op == OP_FONT_NAME {
        match sid_of(stack) {
            Some(s) => Some(
                if op == OP_VERSION {
                    EntryModel::Version(s)
                } else if op == OP_NOTICE {
                    EntryModel::Notice(s)
                } else if op == OP_FULL_NAME {
                    EntryModel::FullName(s)
                } else if op == OP_FAMILY_NAME {
                    EntryModel::FamilyName(s)
                } else if op == OP_WEIGHT {
                    EntryModel::Weight(s)
                } else if op == OP_COPYRIGHT {
                    EntryModel::Copyright(s)
                } else {
                    EntryModel::FontName(s)
                },
            ),
            None => None,
        }
    } else if op == OP_FONT_BBOX {
        if stack.len() == 4 {
            Some(EntryModel::FontBbox(stack))
        } else {
            None
        }
    } else if op == OP_FONT_MATRIX {
        if stack.len() == 6 {
            Some(EntryModel::FontMatrix(stack))
        } else {
            None
        }
    } else if op == OP_ITALIC_ANGLE || op == OP_UNDERLINE_POSITION || op == OP_UNDERLINE_THICKNESS
        || op == OP_STROKE_WIDTH {
        if stack.len() == 1 {
            Some(
                if op == OP_ITALIC_ANGLE {
                    EntryModel::ItalicAngle(stack[0])
                } else if op == OP_UNDERLINE_POSITION {
                    EntryModel::UnderlinePosition(stack[0])
                } else if op == OP_UNDERLINE_THICKNESS {
                    EntryModel::UnderlineThickness(stack[0])
                } else {
                    EntryModel::StrokeWidth(stack[0])
                },
            )
        } else {
            None
        }
    } else if op == OP_IS_FIXED_PITCH {
        match int_of(stack) {
            Some(v) => Some(EntryModel::IsFixedPitch(v != 0)),
            None => None,
        }
    } else if op == OP_PAINT_TYPE || op == OP_CHARSTRING_TYPE || op == OP_UNIQUE_ID {
        match int_of(stack) {
            Some(v) => Some(
                if op == OP_PAINT_TYPE {
                    EntryModel::PaintType(v)
                } else if op == OP_CHARSTRING_TYPE {
                    EntryModel::CharstringType(v)
                } else {
                    EntryModel::UniqueId(v)
                },
            ),
            None => None,
        }
    } else if op == OP_CHARSTRINGS || op == OP_CHARSET || op == OP_ENCODING || op == OP_FD_ARRAY
        || op == OP_FD_SELECT || op == OP_VSTORE {
        match offset_of(stack) {
            Some(o) => Some(
                if op == OP_CHARSTRINGS {
                    EntryModel::CharstringsOffset(o)
                } else if op == OP_CHARSET {
                    EntryModel::Charset(o)
                } else if op == OP_ENCODING {
                    EntryModel::Encoding(o)
                } else if op == OP_FD_ARRAY {
                    EntryModel::FdArrayOffset(o)
                } else if op == OP_FD_SELECT {
                    EntryModel::FdSelectOffset(o)
                } else {
                    EntryModel::VariationStoreOffset(o)
                },
            ),
            None => None,
        }
    } else if op == OP_PRIVATE {
        if stack.len() == 2 {
            match (stack[0], stack[1]) {
                (NumModel::Int(size), NumModel::Int(offset)) => {
                    if 0 <= size <= 2147483647 && 0 <= offset <= 2147483647 {
                        Some(EntryModel::PrivateDictRange { size: size as u32, offset: offset as u32 })
                    } else {
                        None
                    }
                },
                _ => None,
            }
        } else {
            None
        }
    } else if valid_op_code(op) {
        Some(EntryModel::Raw(op, stack))
    } else {
        None
    }
}

/// One operand as a string identifier.
pub open spec fn sid_of(stack: Seq<NumModel>) -> Option<u16> {
    if stack.len() == 1 {
        match stack[0] {
            NumModel::Int(v) => if 0 <= v <= 65535 {
                Some(v as u16)
            } else {
                None
            },
            _ => None,
        }
    } else {
        None
    }
}

/// One operand as a plain integer.
pub open spec fn int_of(stack: Seq<NumModel>) -> Option<int> {
    if stack.len() == 1 {
        match stack[0] {
            NumModel::Int(v) => Some(v),
            _ => None,
        }
    } else {
        None
    }
}

/// One operand as a non-negative offset.
pub open spec fn offset_of(stack: Seq<NumModel>) -> Option<u32> {
    if stack.len() == 1 {
        match stack[0] {
            NumModel::Int(v) => if 0 <= v <= 2147483647 {
                Some(v as u32)
            } else {
                None
            },
            _ => None,
        }
    } else {
        None
    }
}

/// Decoding one integer operand: the value and the bytes consumed.
pub open spec fn spec_decode_int(b: Seq<u8>) -> Option<(int, int)> {
    if b.len() == 0 {
        None
    } else {
        let b0 = b[0] as int;
        if 32 <= b0 <= 246 {
            Some((b0 - 139, 1))
        } else if 247 <= b0 <= 250 {
            if b.len() < 2 {
                None
            } else {
                Some(((b0 - 247) * 256 + b[1] + 108, 2))
            }
        } else if 251 <= b0 <= 254 {
            if b.len() < 2 {
                None
            } else {
                Some((-(b0 - 251) * 256 - b[1] - 108, 2))
            }
        } else if b0 == 28 {
            if b.len() < 3 {
                None
            } else {
                Some((from_u16_image(be_value(b.subrange(1, 3))), 3))
            }
        } else if b0 == 29 {
            if b.len() < 5 {
                None
            } else {
                Some((from_u32_image(be_value(b.subrange(1, 5))), 5))
            }
        } else {
            None
        }
    }
}

/// Decoding one real operand after its 0x1e marker: the stored bytes and the
/// count consumed, ending at the first byte carrying an 0xF nibble.
pub open spec fn spec_decode_real(b: Seq<u8>) -> Option<(Seq<u8>, int)>
    decreases b.len(),
{
    if b.len() == 0 {
        None
    } else if has_f_nibble(b[0]) {
        Some((seq![b[0]], 1))
    } else {
        match spec_decode_real(b.skip(1)) {
            None => None,
            Some((s, k)) => Some((seq![b[0]] + s, k + 1)),
        }
    }
}

/// Decoding one operand of either kind.
pub open spec fn spec_decode_operand(b: Seq<u8>) -> Option<(NumModel, int)> {
    if b.len() == 0 {
        None
    } else if b[0] == 30 {
        match spec_decode_real(b.skip(1)) {
            None => None,
            Some((s, k)) => Some((NumModel::Real(s), k + 1)),
        }
    } else {
        match spec_decode_int(b) {
            None => None,
            Some((v, k)) => Some((NumModel::Int(v), k)),
        }
    }
}

/// A decoded real always consumes between 1 byte and the whole input, and
/// stores exactly the consumed bytes.
pub proof fn lemma_decode_real_len(b: Seq<u8>)
    requires
        spec_decode_real(b) is Some,
    ensures
        1 <= spec_decode_real(b)->Some_0.1 <= b.len(),
        spec_decode_real(b)->Some_0.0.len() == spec_decode_real(b)->Some_0.1,
        spec_decode_real(b)->Some_0.0 =~= b.take(spec_decode_real(b)->Some_0.1),
        real_wf(spec_decode_real(b)->Some_0.0),
    decreases b.len(),
{
    if b.len() == 0 {
    } else if has_f_nibble(b[0]) {
    } else {
        lemma_decode_real_len(b.skip(1));
        let (s, k) = spec_decode_real(b.skip(1))->Some_0;
        assert(seq![b[0]] + s =~= b.take(k + 1));
        assert((seq![b[0]] + s)[(seq![b[0]] + s).len() - 1] == s[s.len() - 1]);
    }
}

/// A decoded operand consumes between 1 byte and the whole input.
pub proof fn lemma_decode_operand_len(b: Seq<u8>)
    requires
        spec_decode_operand(b) is Some,
    ensures
        1 <= spec_decode_operand(b)->Some_0.1 <= b.len(),
        num_wf(spec_decode_operand(b)->Some_0.0),
{
    if b.len() == 0 {
    } else if b[0] == 30 {
        lemma_decode_real_len(b.skip(1));
    } else {
        let b0 = b[0] as int;
        if b0 == 28 {
            crate::offsets::lemma_be_value_bounds(b.subrange(1, 3));
            lemma_pow256_values();
        } else if b0 == 29 {
            crate::offsets::lemma_be_value_bounds(b.subrange(1, 5));
            lemma_pow256_values();
        }
    }
}

/// The decoder: a state machine over the byte stream carrying the operand
/// stack. `None` is any malformed shape: a truncated operand or escape, a
/// recognized operator with mismatched operands, or trailing operands with
/// no operator.
pub open spec fn spec_decode_entries(b: Seq<u8>, stack: Seq<NumModel>) -> Option<Seq<EntryModel>>
    decreases b.len(),
{
    if b.len() == 0 {
        if stack.len() == 0 {
            Some(Seq::empty())
        } else {
            None
        }
    } else if spec_operand_start(b[0]) {
        match spec_decode_operand(b) {
            None => None,
            Some((n, k)) => {
                proof {
                    lemma_decode_operand_len(b);
                }
                spec_decode_entries(b.skip(k), stack.push(n))
            },
        }
    } else if b[0] == 12 {
        if b.len() < 2 {
            None
        } else {
            match entry_from((3072 + b[1] as int) as u16, stack) {
                None => None,
                Some(e) => match spec_decode_entries(b.skip(2), Seq::empty()) {
                    None => None,
                    Some(es) => Some(seq![e] + es),
                },
            }
        }
    } else {
        match entry_from(b[0] as u16, stack) {
            None => None,
            Some(e) => match spec_decode_entries(b.skip(1), Seq::empty()) {
                None => None,
                Some(es) => Some(seq![e] + es),
            },
        }
    }
}

/// Bounds of division and remainder by 256 for the two-byte integer forms.
proof fn lemma_div256_bounds(t: int)
    requires
        0 <= t <= 1023,
    ensures
        0 <= t / 256 <= 3,
        0 <= t % 256 <= 255,
        (t / 256) * 256 + t % 256 == t,
{
    assert(0 <= t / 256 <= 3 && 0 <= t % 256 <= 255 && (t / 256) * 256 + t % 256 == t)
        by (nonlinear_arith)
        requires
            0 <= t <= 1023,
    ;
}

/// An encoded integer begins with an operand byte that is neither the real
/// marker nor the escape.
proof fn lemma_encode_int_head(v: int)
    requires
        -2147483648 <= v <= 2147483647,
    ensures
        spec_encode_int(v).len() >= 1,
        spec_operand_start(spec_encode_int(v)[0]),
        spec_encode_int(v)[0] != 30,
        spec_encode_int(v)[0] != 12,
{
    if -107 <= v <= 107 {
    } else if 108 <= v <= 1131 {
        lemma_div256_bounds(v - 108);
    } else if -1131 <= v <= -108 {
        lemma_div256_bounds(-v - 108);
    } else if -32768 <= v <= 32767 {
        lemma_be_bytes_len(to_u16_image(v), 2);
    } else {
        lemma_be_bytes_len(to_u32_image(v), 4);
    }
}

/// Decoding an encoded integer from the front of any stream recovers the
/// value and consumes exactly the encoding.
proof fn lemma_decode_int_of_encode(v: int, rest: Seq<u8>)
    requires
        -2147483648 <= v <= 2147483647,
    ensures
        spec_decode_int(spec_encode_int(v) + rest) == Some(
            (v, spec_encode_int(v).len() as int),
        ),
{
    let e = spec_encode_int(v);
    let b = e + rest;
    lemma_encode_int_head(v);
    if -107 <= v <= 107 {
        assert(b[0] == (v + 139) as u8);
    } else if 108 <= v <= 1131 {
        let t = v - 108;
        lemma_div256_bounds(t);
        assert(b[0] == (t / 256 + 247) as u8);
        assert(b[1] == (t % 256) as u8);
        assert((b[0] as int - 247) * 256 + b[1] + 108 == v);
    } else if -1131 <= v <= -108 {
        let t = -v - 108;
        lemma_div256_bounds(t);
        assert(b[0] == (t / 256 + 251) as u8);
        assert(b[1] == (t % 256) as u8);
        assert(-(b[0] as int - 251) * 256 - b[1] - 108 == v);
    } else if -32768 <= v <= 32767 {
        let u = to_u16_image(v);
        lemma_be_bytes_len(u, 2);
        assert(b[0] == 28);
        assert(b.subrange(1, 3) =~= be_bytes(u, 2));
        lemma_pow256_values();
        lemma_be_roundtrip(u, 2);
        assert(from_u16_image(u) == v);
    } else {
        let u = to_u32_image(v);
        lemma_be_bytes_len(u, 4);
        assert(b[0] == 29);
        assert(b.subrange(1, 5) =~= be_bytes(u, 4));
        lemma_pow256_values();
        lemma_be_roundtrip(u, 4);
        assert(from_u32_image(u) == v);
    }
}

/// Decoding a stored real from the front of any stream consumes exactly the
/// stored bytes.
proof fn lemma_decode_real_of_wf(s: Seq<u8>, rest: Seq<u8>)
    requires
        real_wf(s),
    ensures
        spec_decode_real(s + rest) == Some((s, s.len() as int)),
    decreases s.len(),
{
    let b = s + rest;
    if s.len() == 1 {
        assert(has_f_nibble(b[0]));
        assert(seq![b[0]] =~= s);
    } else {
        assert(!has_f_nibble(b[0]));
        let s1 = s.skip(1);
        assert(real_wf(s1));
        assert(b.skip(1) =~= s1 + rest);
        lemma_decode_real_of_wf(s1, rest);
        assert(seq![b[0]] + s1 =~= s);
    }
}

/// Decoding an encoded operand from the front of any stream recovers it and
/// consumes exactly its encoding.
proof fn lemma_decode_operand_of_encode(n: NumModel, rest: Seq<u8>)
    requires
        num_wf(n),
    ensures
        spec_encode_num(n).len() >= 1,
        spec_operand_start(spec_encode_num(n)[0]),
        spec_decode_operand(spec_encode_num(n) + rest) == Some(
            (n, spec_encode_num(n).len() as int),
        ),
{
    let e = spec_encode_num(n);
    let b = e + rest;
    match n {
        NumModel::Int(v) => {
            lemma_encode_int_head(v);
            lemma_decode_int_of_encode(v, rest);
        },
        NumModel::Real(s) => {
            assert(b[0] == 30);
            assert(b.skip(1) =~= s + rest);
            lemma_decode_real_of_wf(s, rest);
        },
    }
}

/// Decoding pushes each encoded operand onto the stack in order.
proof fn lemma_decode_after_operands(ops: Seq<NumModel>, tail: Seq<u8>, stack: Seq<NumModel>)
    requires
        nums_wf(ops),
    ensures
        spec_decode_entries(spec_encode_operands(ops) + tail, stack) == spec_decode_entries(
            tail,
            stack + ops,
        ),
    decreases ops.len(),
{
    if ops.len() == 0 {
        assert(spec_encode_operands(ops) + tail =~= tail);
        assert(stack + ops =~= stack);
    } else {
        let e0 = spec_encode_num(ops[0]);
        let rest_enc = spec_encode_operands(ops.skip(1));
        let whole = spec_encode_operands(ops) + tail;
        assert(whole =~= e0 + (rest_enc + tail));
        lemma_decode_operand_of_encode(ops[0], rest_enc + tail);
        assert(whole[0] == e0[0]);
        assert(spec_operand_start(whole[0]));
        assert(spec_decode_operand(whole) == Some((ops[0], e0.len() as int)));
        assert(whole.skip(e0.len() as int) =~= rest_enc + tail);
        assert(nums_wf(ops.skip(1)));
        lemma_decode_after_operands(ops.skip(1), tail, stack.push(ops[0]));
        assert(stack.push(ops[0]) + ops.skip(1) =~= stack + ops);
    }
}

/// Decoding an encoded operator applies `entry_from` to the stack and then
/// continues with an empty stack.
proof fn lemma_decode_op(op: u16, stack: Seq<NumModel>, tail: Seq<u8>)
    requires
        valid_op_code(op),
    ensures
        spec_decode_entries(spec_encode_op(op) + tail, stack) == (match entry_from(op, stack) {
            None => None,
            Some(e) => match spec_decode_entries(tail, Seq::empty()) {
                None => None,
                Some(es) => Some(seq![e] + es),
            },
        }),
{
    let b = spec_encode_op(op) + tail;
    if op < 256 {
        assert(b[0] == op as u8);
        assert(!spec_operand_start(b[0]));
        assert(b[0] != 12);
        assert(b.skip(1) =~= tail);
        assert(b[0] as u16 == op);
    } else {
        assert(3072 <= op <= 3327);
        assert(b[0] == 12);
        assert(b[1] == (op % 256) as u8);
        assert(op % 256 == op - 3072) by (nonlinear_arith)
            requires
                3072 <= op <= 3327,
        ;
        assert((3072 + b[1] as int) as u16 == op);
        assert(b.len() >= 2);
        assert(b.skip(2) =~= tail);
        assert(!spec_operand_start(b[0]));
    }
}

/// A well-formed entry's operand list is well formed.
proof fn lemma_entry_operands_wf(e: EntryModel)
    requires
        entry_wf(e),
    ensures
        nums_wf(entry_operands(e)),
        valid_op_code(entry_opcode(e)),
{
}

/// `entry_from` inverts the encoding choice of every well-formed entry.
proof fn lemma_entry_from_inverts(e: EntryModel)
    requires
        entry_wf(e),
    ensures
        entry_from(entry_opcode(e), entry_operands(e)) == Some(e),
{
}

/// Decoding the encoding of one entry prepends that entry.
proof fn lemma_decode_of_encode_entry(e: EntryModel, tail: Seq<u8>)
    requires
        entry_wf(e),
    ensures
        spec_decode_entries(spec_encode_entry(e) + tail, Seq::empty()) == (
        match spec_decode_entries(tail, Seq::empty()) {
            None => None,
            Some(es) => Some(seq![e] + es),
        }),
{
    let enc_ops = spec_encode_operands(entry_operands(e));
    let enc_op = spec_encode_op(entry_opcode(e));
    let whole = spec_encode_entry(e) + tail;
    assert(whole =~= enc_ops + (enc_op + tail));
    lemma_entry_operands_wf(e);
    lemma_decode_after_operands(entry_operands(e), enc_op + tail, Seq::empty());
    assert(Seq::<NumModel>::empty() + entry_operands(e) =~= entry_operands(e));
    lemma_decode_op(entry_opcode(e), entry_operands(e), tail);
    lemma_entry_from_inverts(e);
}

/// Law: the codec's idempotence. Decoding the encoding of any well-formed
/// entry list yields exactly that list: every entry, by variant and value, in
/// order (and so also as a set).
pub proof fn lemma_decode_of_encode_entries(es: Seq<EntryModel>)
    requires
        entries_wf(es),
    ensures
        spec_decode_entries(spec_encode_entries(es), Seq::empty()) == Some(es),
    decreases es.len(),
{
    if es.len() == 0 {
        assert(spec_encode_entries(es) =~= Seq::<u8>::empty());
    } else {
        assert(entry_wf(es[0]));
        lemma_decode_of_encode_entry(es[0], spec_encode_entries(es.skip(1)));
        assert(entries_wf(es.skip(1)));
        lemma_decode_of_encode_entries(es.skip(1));
        assert(seq![es[0]] + es.skip(1) =~= es);
    }
}

/// Anything `entry_from` builds from a well-formed stack is well formed.
proof fn lemma_entry_from_wf(op: u16, stack: Seq<NumModel>)
    requires
        nums_wf(stack),
        entry_from(op, stack) is Some,
    ensures
        entry_wf(entry_from(op, stack)->Some_0),
{
}

/// Whatever decodes is well formed, entry by entry.
pub proof fn lemma_decode_entries_wf(b: Seq<u8>, stack: Seq<NumModel>)
    requires
        nums_wf(stack),
        spec_decode_entries(b, stack) is Some,
    ensures
        entries_wf(spec_decode_entries(b, stack)->Some_0),
    decreases b.len(),
{
    if b.len() == 0 {
    } else if spec_operand_start(b[0]) {
        let (n, k) = spec_decode_operand(b)->Some_0;
        lemma_decode_operand_len(b);
        assert(nums_wf(stack.push(n)));
        lemma_decode_entries_wf(b.skip(k), stack.push(n));
    } else if b[0] == 12 {
        let op = (3072 + b[1] as int) as u16;
        lemma_entry_from_wf(op, stack);
        lemma_decode_entries_wf(b.skip(2), Seq::empty());
        let e = entry_from(op, stack)->Some_0;
        let es = spec_decode_entries(b.skip(2), Seq::empty())->Some_0;
        assert(entries_wf(seq![e] + es)) by {
            assert(forall|i: int|
                0 <= i < (seq![e] + es).len() ==> (seq![e] + es)[i] == if i == 0 {
                    e
                } else {
                    es[i - 1]
                });
        }
    } else {
        let op = b[0] as u16;
        lemma_entry_from_wf(op, stack);
        lemma_decode_entries_wf(b.skip(1), Seq::empty());
        let e = entry_from(op, stack)->Some_0;
        let es = spec_decode_entries(b.skip(1), Seq::empty())->Some_0;
        assert(entries_wf(seq![e] + es)) by {
            assert(forall|i: int|
                0 <= i < (seq![e] + es).len() ==> (seq![e] + es)[i] == if i == 0 {
                    e
                } else {
                    es[i - 1]
                });
        }
    }
}

/// Law: Top DICT round trip. Whatever a byte stream decodes to, encoding
/// that entry list and decoding it again yields the same entries.
pub proof fn lemma_reencode_decodes_identically(b: Seq<u8>)
    requires
        spec_decode_entries(b, Seq::empty()) is Some,
    ensures
        entries_wf(spec_decode_entries(b, Seq::empty())->Some_0),
        spec_decode_entries(
            spec_encode_entries(spec_decode_entries(b, Seq::empty())->Some_0),
            Seq::empty(),
        ) == spec_decode_entries(b, Seq::empty()),
{
    lemma_decode_entries_wf(b, Seq::empty());
    lemma_decode_of_encode_entries(spec_decode_entries(b, Seq::empty())->Some_0);
}

/// Appending one entry appends its encoding.
pub proof fn lemma_encode_entries_push(es: Seq<EntryModel>, e: EntryModel)
    ensures
        spec_encode_entries(es.push(e)) =~= spec_encode_entries(es) + spec_encode_entry(e),
    decreases es.len(),
{
    if es.len() == 0 {
        assert(es.push(e)[0] == e);
        assert(es.push(e).skip(1) =~= Seq::<EntryModel>::empty());
        assert(spec_encode_entries(es.push(e).skip(1)) == Seq::<u8>::empty());
        assert(spec_encode_entries(es) == Seq::<u8>::empty());
    } else {
        lemma_encode_entries_push(es.skip(1), e);
        assert(es.push(e).skip(1) =~= es.skip(1).push(e));
        assert(es.push(e)[0] == es[0]);
        let h = spec_encode_entry(es[0]);
        assert(spec_encode_entries(es.push(e)) == h + spec_encode_entries(es.skip(1).push(e)));
        assert(spec_encode_entries(es.skip(1).push(e)) =~= spec_encode_entries(es.skip(1))
            + spec_encode_entry(e));
        assert(spec_encode_entries(es) == h + spec_encode_entries(es.skip(1)));
    }
}

/// Lifts an option over entry lists by prefixing already-produced entries.
pub open spec fn prepend_entries(p: Seq<EntryModel>, o: Option<Seq<EntryModel>>) -> Option<
    Seq<EntryModel>,
> {
    match o {
        None => None,
        Some(es) => Some(p + es),
    }
}

/// The first terminator decides where a real number ends.
proof fn lemma_decode_real_found(s: Seq<u8>, m: int)
    requires
        0 <= m < s.len(),
        has_f_nibble(s[m]),
        forall|i: int| 0 <= i < m ==> !has_f_nibble(#[trigger] s[i]),
    ensures
        spec_decode_real(s) == Some((s.take(m + 1), m + 1)),
    decreases m,
{
    if m == 0 {
        assert(seq![s[0]] =~= s.take(1));
    } else {
        lemma_decode_real_found(s.skip(1), m - 1);
        assert(seq![s[0]] + s.skip(1).take(m) =~= s.take(m + 1));
    }
}

/// Without a terminator a real number never ends: the stream is malformed.
proof fn lemma_decode_real_none(s: Seq<u8>)
    requires
        forall|i: int| 0 <= i < s.len() ==> !has_f_nibble(#[trigger] s[i]),
    ensures
        spec_decode_real(s) is None,
    decreases s.len(),
{
    if s.len() > 0 {
        lemma_decode_real_none(s.skip(1));
    }
}

/// The value of a two-byte big-endian sequence.
proof fn lemma_be_value_2(a: u8, b: u8)
    ensures
        be_value(seq![a, b]) == a * 256 + b,
{
    assert(seq![a].drop_last() =~= Seq::<u8>::empty());
    assert(be_value(Seq::<u8>::empty()) == 0);
    assert(be_value(seq![a]) == a) by {
        assert(seq![a].last() == a);
    }
    assert(seq![a, b].drop_last() =~= seq![a]);
    assert(be_value(seq![a, b]) == be_value(seq![a]) * 256 + b) by {
        assert(seq![a, b].last() == b);
    }
}

/// The value of a four-byte big-endian sequence.
proof fn lemma_be_value_4(a: u8, b: u8, c: u8, d: u8)
    ensures
        be_value(seq![a, b, c, d]) == ((a * 256 + b) * 256 + c) * 256 + d,
{
    lemma_be_value_2(a, b);
    assert(seq![a, b, c].drop_last() =~= seq![a, b]);
    assert(be_value(seq![a, b, c]) == be_value(seq![a, b]) * 256 + c) by {
        assert(seq![a, b, c].last() == c);
    }
    assert(seq![a, b, c, d].drop_last() =~= seq![a, b, c]);
    assert(be_value(seq![a, b, c, d]) == be_value(seq![a, b, c]) * 256 + d) by {
        assert(seq![a, b, c, d].last() == d);
    }
}

/// Decodes the operand starting at `pos`, returning it with the position
/// just past it.
#[verifier::rlimit(100)]
#[verifier::loop_isolation(false)]
fn decode_operand_at(bytes: &[u8], pos: usize) -> (r: Result<(DictNumber, usize), CffError>)
    requires
        pos < bytes@.len(),
        spec_operand_start(bytes@[pos as int]),
    ensures
        match spec_decode_operand(bytes@.skip(pos as int)) {
            Some((n, k)) => r matches Ok(p) && p.0@ == n && p.1 == pos + k,
            None => r == Err::<(DictNumber, usize), CffError>(CffError::MalformedDictOperand),
        },
{
    let n = bytes.len();
    let b0 = *slice_index_get(bytes, pos);
    let ghost tail = bytes@.skip(pos as int);
    assert(tail[0] == b0);
    if b0 == 30 {
        let ghost s = bytes@.skip(pos as int + 1);
        proof {
            assert(tail.skip(1) =~= s);
        }
        let mut j = pos + 1;
        let mut out: Vec<u8> = Vec::new();
        while j < n
            invariant
                pos + 1 <= j <= n,
                out@ =~= bytes@.subrange(pos as int + 1, j as int),
                forall|i: int| pos + 1 <= i < j ==> !has_f_nibble(#[trigger] bytes@[i]),
            decreases n - j,
        {
            let x = *slice_index_get(bytes, j);
            out.push(x);
            proof {
                assert(out@ =~= bytes@.subrange(pos as int + 1, j as int + 1));
            }
            if x / 16 == 15 || x % 16 == 15 {
                proof {
                    let m = j - (pos + 1);
                    assert(s[m] == x);
                    lemma_decode_real_found(s, m);
                    assert(s.take(m + 1) =~= out@);
                }
                return Ok((DictNumber::Real(out), j + 1));
            }
            j += 1;
        }
        proof {
            lemma_decode_real_none(s);
        }
        Err(CffError::MalformedDictOperand)
    } else if 32 <= b0 && b0 <= 246 {
        Ok((DictNumber::Int(b0 as i32 - 139), pos + 1))
    } else if 247 <= b0 && b0 <= 250 {
        if n - pos < 2 {
            return Err(CffError::MalformedDictOperand);
        }
        let b1 = *slice_index_get(bytes, pos + 1);
        proof {
            assert(tail[1] == b1);
        }
        let v: i32 = (b0 as i32 - 247) * 256 + b1 as i32 + 108;
        Ok((DictNumber::Int(v), pos + 2))
    } else if 251 <= b0 && b0 <= 254 {
        if n - pos < 2 {
            return Err(CffError::MalformedDictOperand);
        }
        let b1 = *slice_index_get(bytes, pos + 1);
        proof {
            assert(tail[1] == b1);
        }
        let v: i32 = -(b0 as i32 - 251) * 256 - b1 as i32 - 108;
        Ok((DictNumber::Int(v), pos + 2))
    } else if b0 == 28 {
        if n - pos < 3 {
            return Err(CffError::MalformedDictOperand);
        }
        let b1 = *slice_index_get(bytes, pos + 1);
        let b2 = *slice_index_get(bytes, pos + 2);
        let u: u32 = b1 as u32 * 256 + b2 as u32;
        let v: i32 = if u >= 32768 {
            (u as i32) - 65536
        } else {
            u as i32
        };
        proof {
            assert(tail.subrange(1, 3) =~= seq![b1, b2]);
            lemma_be_value_2(b1, b2);
        }
        Ok((DictNumber::Int(v), pos + 3))
    } else {
        if n - pos < 5 {
            return Err(CffError::MalformedDictOperand);
        }
        let b1 = *slice_index_get(bytes, pos + 1);
        let b2 = *slice_index_get(bytes, pos + 2);
        let b3 = *slice_index_get(bytes, pos + 3);
        let b4 = *slice_index_get(bytes, pos + 4);
        let u: u32 = ((b1 as u32 * 256 + b2 as u32) * 256 + b3 as u32) * 256 + b4 as u32;
        let v: i32 = if u >= 2147483648 {
            ((u - 2147483648) as i32) + (-2147483647 - 1)
        } else {
            u as i32
        };
        proof {
            assert(tail.subrange(1, 5) =~= seq![b1, b2, b3, b4]);
            lemma_be_value_4(b1, b2, b3, b4);
        }
        Ok((DictNumber::Int(v), pos + 5))
    }
}

/// Builds the typed entry for an operator applied to the operand stack.
/// Fails with `MalformedDictOperand` exactly when the operand count or type
/// does not match the operator.
#[verifier::rlimit(100)]
fn entry_from_op(op: u16, stack: Vec<DictNumber>) -> (r: Result<Entry, CffError>)
    ensures
        match entry_from(op, nums_view(stack@)) {
            Some(m) => r matches Ok(e) && e@ == m,
            None => r == Err::<Entry, CffError>(CffError::MalformedDictOperand),
        },
{
    let ghost sv = nums_view(stack@);
    proof {
        assert(sv.len() == stack@.len());
        if stack@.len() > 0 {
            assert(sv[0] == stack@[0]@);
        }
        if stack@.len() > 1 {
            assert(sv[1] == stack@[1]@);
        }
    }
    if op == OP_VERSION || op == OP_NOTICE || op == OP_FULL_NAME || op == OP_FAMILY_NAME
        || op == OP_WEIGHT || op == OP_COPYRIGHT || op == OP_FONT_NAME {
        if stack.len() != 1 {
            return Err(CffError::MalformedDictOperand);
        }
        match &stack[0] {
            DictNumber::Int(v) => {
                let v = *v;
                if v < 0 || v > 65535 {
                    return Err(CffError::MalformedDictOperand);
                }
                let sid = StringId(v as u16);
                if op == OP_VERSION {
                    Ok(Entry::Version(sid))
                } else if op == OP_NOTICE {
                    Ok(Entry::Notice(sid))
                } else if op == OP_FULL_NAME {
                    Ok(Entry::FullName(sid))
                } else if op == OP_FAMILY_NAME {
                    Ok(Entry::FamilyName(sid))
                } else if op == OP_WEIGHT {
                    Ok(Entry::Weight(sid))
                } else if op == OP_COPYRIGHT {
                    Ok(Entry::Copyright(sid))
                } else {
                    Ok(Entry::FontName(sid))
                }
            },
            DictNumber::Real(_) => Err(CffError::MalformedDictOperand),
        }
    } else if op == OP_FONT_BBOX {
        if stack.len() != 4 {
            return Err(CffError::MalformedDictOperand);
        }
        Ok(Entry::FontBbox(stack))
    } else if op == OP_FONT_MATRIX {
        if stack.len() != 6 {
            return Err(CffError::MalformedDictOperand);
        }
        Ok(Entry::FontMatrix(stack))
    } else if op == OP_ITALIC_ANGLE || op == OP_UNDERLINE_POSITION || op == OP_UNDERLINE_THICKNESS
        || op == OP_STROKE_WIDTH {
        if stack.len() != 1 {
            return Err(CffError::MalformedDictOperand);
        }
        let mut stack = stack;
        let n0 = match stack.pop() {
            Some(n0) => n0,
            None => {
                return Err(CffError::MalformedDictOperand);
            },
        };
        proof {
            assert(n0@ == sv[0]);
        }
        if op == OP_ITALIC_ANGLE {
            Ok(Entry::ItalicAngle(n0))
        } else if op == OP_UNDERLINE_POSITION {
            Ok(Entry::UnderlinePosition(n0))
        } else if op == OP_UNDERLINE_THICKNESS {
            Ok(Entry::UnderlineThickness(n0))
        } else {
            Ok(Entry::StrokeWidth(n0))
        }
    } else if op == OP_IS_FIXED_PITCH {
        if stack.len() != 1 {
            return Err(CffError::MalformedDictOperand);
        }
        match &stack[0] {
            DictNumber::Int(v) => Ok(Entry::IsFixedPitch(*v != 0)),
            DictNumber::Real(_) => Err(CffError::MalformedDictOperand),
        }
    } else if op == OP_PAINT_TYPE || op == OP_CHARSTRING_TYPE || op == OP_UNIQUE_ID {
        if stack.len() != 1 {
            return Err(CffError::MalformedDictOperand);
        }
        match &stack[0] {
            DictNumber::Int(v) => {
                if op == OP_PAINT_TYPE {
                    Ok(Entry::PaintType(*v))
                } else if op == OP_CHARSTRING_TYPE {
                    Ok(Entry::CharstringType(*v))
                } else {
                    Ok(Entry::UniqueId(*v))
                }
            },
            DictNumber::Real(_) => Err(CffError::MalformedDictOperand),
        }
    } else if op == OP_CHARSTRINGS || op == OP_CHARSET || op == OP_ENCODING || op == OP_FD_ARRAY
        || op == OP_FD_SELECT || op == OP_VSTORE {
        if stack.len() != 1 {
            return Err(CffError::MalformedDictOperand);
        }
        match &stack[0] {
            DictNumber::Int(v) => {
                let v = *v;
                if v < 0 {
                    return Err(CffError::MalformedDictOperand);
                }
                let o = v as u32;
                if op == OP_CHARSTRINGS {
                    Ok(Entry::CharstringsOffset(o))
                } else if op == OP_CHARSET {
                    Ok(Entry::Charset(o))
                } else if op == OP_ENCODING {
                    Ok(Entry::Encoding(o))
                } else if op == OP_FD_ARRAY {
                    Ok(Entry::FdArrayOffset(o))
                } else if op == OP_FD_SELECT {
                    Ok(Entry::FdSelectOffset(o))
                } else {
                    Ok(Entry::VariationStoreOffset(o))
                }
            },
            DictNumber::Real(_) => Err(CffError::MalformedDictOperand),
        }
    } else if op == OP_PRIVATE {
        if stack.len() != 2 {
            return Err(CffError::MalformedDictOperand);
        }
        let size: i32 = match &stack[0] {
            DictNumber::Int(v) => *v,
            DictNumber::Real(_) => {
                return Err(CffError::MalformedDictOperand);
            },
        };
        let offset: i32 = match &stack[1] {
            DictNumber::Int(v) => *v,
            DictNumber::Real(_) => {
                return Err(CffError::MalformedDictOperand);
            },
        };
        if size < 0 || offset < 0 {
            return Err(CffError::MalformedDictOperand);
        }
        Ok(Entry::PrivateDictRange { size: size as u32, offset: offset as u32 })
    } else {
        let one_byte_raw = op < 256 && !(op == 28 || op == 29 || op == 30 || (32 <= op && op
            <= 254)) && op != 12;
        let escaped_raw = 3072 <= op && op <= 3327;
        if one_byte_raw || escaped_raw {
            Ok(Entry::Raw(RawEntry { operator: op, operands: stack }))
        } else {
            Err(CffError::MalformedDictOperand)
        }
    }
}

/// Decodes a Top DICT byte stream into its entries, in stream order.
/// Succeeds exactly when the stream is a well-shaped sequence of
/// operand/operator groups; any malformed shape fails with
/// `MalformedDictOperand`.
#[verifier::rlimit(100)]
#[verifier::loop_isolation(false)]
pub fn decode_entries(bytes: &[u8]) -> (r: Result<Vec<Entry>, CffError>)
    ensures
        match r {
            Ok(es) => spec_decode_entries(bytes@, Seq::empty()) == Some(entries_view(es@)),
            Err(e) => e == CffError::MalformedDictOperand && spec_decode_entries(
                bytes@,
                Seq::empty(),
            ) is None,
        },
{
    let n = bytes.len();
    let mut pos: usize = 0;
    let mut stack: Vec<DictNumber> = Vec::new();
    let mut out: Vec<Entry> = Vec::new();
    proof {
        assert(nums_view(stack@) =~= Seq::<NumModel>::empty());
        assert(entries_view(out@) =~= Seq::<EntryModel>::empty());
        assert(bytes@.skip(0) =~= bytes@);
        assert(prepend_entries(entries_view(out@), spec_decode_entries(bytes@, Seq::empty()))
            == spec_decode_entries(bytes@, nums_view(stack@)));
    }
    while pos < n
        invariant
            pos <= n,
            spec_decode_entries(bytes@, Seq::empty()) == prepend_entries(
                entries_view(out@),
                spec_decode_entries(bytes@.skip(pos as int), nums_view(stack@)),
            ),
        decreases n - pos,
    {
        let ghost tail = bytes@.skip(pos as int);
        let ghost sv = nums_view(stack@);
        let b0 = *slice_index_get(bytes, pos);
        proof {
            assert(tail[0] == b0);
        }
        if b0 == 28 || b0 == 29 || b0 == 30 || (32 <= b0 && b0 <= 254) {
            match decode_operand_at(bytes, pos) {
                Ok((num, np)) => {
                    proof {
                        let (nm, k) = spec_decode_operand(tail)->Some_0;
                        lemma_decode_operand_len(tail);
                        assert(bytes@.skip(np as int) =~= tail.skip(k));
                        assert(nums_view(stack@.push(num)) =~= sv.push(nm));
                    }
                    stack.push(num);
                    pos = np;
                },
                Err(e) => {
                    return Err(e);
                },
            }
        } else if b0 == 12 {
            if n - pos < 2 {
                return Err(CffError::MalformedDictOperand);
            }
            let b1 = *slice_index_get(bytes, pos + 1);
            proof {
                assert(tail[1] == b1);
            }
            let op = 3072 + b1 as u16;
            let e = match entry_from_op(op, stack) {
                Ok(e) => e,
                Err(err) => {
                    return Err(err);
                },
            };
            proof {
                let em = entry_from(op, sv)->Some_0;
                let rest = spec_decode_entries(bytes@.skip(pos as int + 2), Seq::empty());
                assert(bytes@.skip(pos as int + 2) =~= tail.skip(2));
                assert(entries_view(out@.push(e)) =~= entries_view(out@).push(em));
                if rest is Some {
                    assert(entries_view(out@) + (seq![em] + rest->Some_0) =~= entries_view(
                        out@,
                    ).push(em) + rest->Some_0);
                }
            }
            out.push(e);
            stack = Vec::new();
            proof {
                assert(nums_view(stack@) =~= Seq::<NumModel>::empty());
            }
            pos = pos + 2;
        } else {
            let op = b0 as u16;
            let e = match entry_from_op(op, stack) {
                Ok(e) => e,
                Err(err) => {
                    return Err(err);
                },
            };
            proof {
                let em = entry_from(op, sv)->Some_0;
                let rest = spec_decode_entries(bytes@.skip(pos as int + 1), Seq::empty());
                assert(bytes@.skip(pos as int + 1) =~= tail.skip(1));
                assert(entries_view(out@.push(e)) =~= entries_view(out@).push(em));
                if rest is Some {
                    assert(entries_view(out@) + (seq![em] + rest->Some_0) =~= entries_view(
                        out@,
                    ).push(em) + rest->Some_0);
                }
            }
            out.push(e);
            stack = Vec::new();
            proof {
                assert(nums_view(stack@) =~= Seq::<NumModel>::empty());
            }
            pos = pos + 1;
        }
    }
    proof {
        assert(bytes@.skip(n as int) =~= Seq::<u8>::empty());
    }
    if stack.len() > 0 {
        return Err(CffError::MalformedDictOperand);
    }
    proof {
        assert(nums_view(stack@).len() == 0);
        assert(entries_view(out@) + Seq::<EntryModel>::empty() =~= entries_view(out@));
    }
    Ok(out)
}

/// Appends the bytes of `src` to `out`.
fn append_bytes(out: &mut Vec<u8>, src: &Vec<u8>)
    ensures
        final(out)@ == old(out)@ + src@,
{
    let mut j: usize = 0;
    while j < src.len()
        invariant
            j <= src@.len(),
            out@ == old(out)@ + src@.take(j as int),
        decreases src@.len() - j,
    {
        out.push(src[j]);
        proof {
            assert(old(out)@ + src@.take(j as int) + seq![src@[j as int]] =~= old(out)@ + src@.take(
                j + 1,
            ));
        }
        j += 1;
    }
    proof {
        assert(src@.take(src@.len() as int) =~= src@);
    }
}

/// Appends the minimal integer encoding of `v`.
#[verifier::rlimit(100)]
fn encode_int(out: &mut Vec<u8>, v: i32)
    ensures
        final(out)@ == old(out)@ + spec_encode_int(v as int),
{
    if -107 <= v && v <= 107 {
        out.push((v + 139) as u8);
        proof {
            assert(old(out)@ + seq![((v as int) + 139) as u8] =~= out@);
        }
    } else if 108 <= v && v <= 1131 {
        let t = v - 108;
        proof {
            lemma_div256_bounds(t as int);
        }
        out.push((t / 256 + 247) as u8);
        out.push((t % 256) as u8);
        proof {
            assert(out@ =~= old(out)@ + spec_encode_int(v as int));
        }
    } else if -1131 <= v && v <= -108 {
        let t = -v - 108;
        proof {
            lemma_div256_bounds(t as int);
        }
        out.push((t / 256 + 251) as u8);
        out.push((t % 256) as u8);
        proof {
            assert(out@ =~= old(out)@ + spec_encode_int(v as int));
        }
    } else if -32768 <= v && v <= 32767 {
        let u: u32 = if v < 0 {
            (v + 65536) as u32
        } else {
            v as u32
        };
        proof {
            assert(u as int == to_u16_image(v as int));
            lemma_be_bytes_explicit(u as int);
        }
        out.push(28);
        out.push((u / 256 % 256) as u8);
        out.push((u % 256) as u8);
        proof {
            assert(be_bytes(u as int, 2) =~= seq![
                ((u as int) / 256 % 256) as u8,
                ((u as int) % 256) as u8,
            ]);
            assert((u / 256 % 256) as u8 == ((u as int) / 256 % 256) as u8);
            assert((u % 256) as u8 == ((u as int) % 256) as u8);
            assert(out@ =~= old(out)@ + (seq![28u8] + be_bytes(to_u16_image(v as int), 2)));
        }
    } else {
        let u: u32 = if v < 0 {
            let w: u32 = (-(v + 1)) as u32;
            4294967295u32 - w
        } else {
            v as u32
        };
        proof {
            assert(u as int == to_u32_image(v as int));
            lemma_be_bytes_explicit(u as int);
        }
        let q1 = u / 256;
        let q2 = q1 / 256;
        let q3 = q2 / 256;
        out.push(29);
        out.push((q3 % 256) as u8);
        out.push((q2 % 256) as u8);
        out.push((q1 % 256) as u8);
        out.push((u % 256) as u8);
        proof {
            assert(out@ =~= old(out)@ + (seq![29u8] + be_bytes(to_u32_image(v as int), 4)));
        }
    }
}

/// Appends the encoding of one operand.
fn encode_num(out: &mut Vec<u8>, n: &DictNumber)
    ensures
        final(out)@ == old(out)@ + spec_encode_num(n@),
{
    match n {
        DictNumber::Int(v) => {
            encode_int(out, *v);
        },
        DictNumber::Real(s) => {
            out.push(30);
            append_bytes(out, s);
            proof {
                assert((old(out)@ + seq![30u8]) + s@ =~= old(out)@ + (seq![30u8] + s@));
            }
        },
    }
}

/// Appending the encodings of an operand list, one operand at a time.
proof fn lemma_encode_operands_push(ops: Seq<NumModel>, n: NumModel)
    ensures
        spec_encode_operands(ops.push(n)) =~= spec_encode_operands(ops) + spec_encode_num(n),
    decreases ops.len(),
{
    if ops.len() == 0 {
        assert(ops.push(n)[0] == n);
        assert(ops.push(n).skip(1) =~= Seq::<NumModel>::empty());
        assert(spec_encode_operands(ops.push(n).skip(1)) == Seq::<u8>::empty());
        assert(spec_encode_operands(ops) == Seq::<u8>::empty());
    } else {
        lemma_encode_operands_push(ops.skip(1), n);
        assert(ops.push(n).skip(1) =~= ops.skip(1).push(n));
        assert(ops.push(n)[0] == ops[0]);
        let h = spec_encode_num(ops[0]);
        assert(spec_encode_operands(ops.push(n)) == h + spec_encode_operands(ops.skip(1).push(n)));
        assert(spec_encode_operands(ops.skip(1).push(n)) =~= spec_encode_operands(ops.skip(1))
            + spec_encode_num(n));
        assert(spec_encode_operands(ops) == h + spec_encode_operands(ops.skip(1)));
    }
}

/// A singleton operand list encodes as that operand alone.
proof fn lemma_encode_operands_singleton(n: NumModel)
    ensures
        spec_encode_operands(seq![n]) =~= spec_encode_num(n),
{
    assert(seq![n].skip(1) =~= Seq::<NumModel>::empty());
    assert(spec_encode_operands(seq![n].skip(1)) == Seq::<u8>::empty());
}

/// A pair of operands encodes as the two in order.
proof fn lemma_encode_operands_pair(n1: NumModel, n2: NumModel)
    ensures
        spec_encode_operands(seq![n1, n2]) =~= spec_encode_num(n1) + spec_encode_num(n2),
{
    assert(seq![n1, n2].skip(1) =~= seq![n2]);
    lemma_encode_operands_singleton(n2);
}

/// Appends the encodings of all operands, in order.
#[verifier::loop_isolation(false)]
fn encode_operands(out: &mut Vec<u8>, nums: &Vec<DictNumber>)
    ensures
        final(out)@ == old(out)@ + spec_encode_operands(nums_view(nums@)),
{
    proof {
        assert(nums_view(nums@).take(0) =~= Seq::<NumModel>::empty());
        assert(out@ =~= old(out)@ + spec_encode_operands(nums_view(nums@).take(0)));
    }
    let mut i: usize = 0;
    while i < nums.len()
        invariant
            i <= nums@.len(),
            out@ == old(out)@ + spec_encode_operands(nums_view(nums@).take(i as int)),
        decreases nums@.len() - i,
    {
        let ghost prev = spec_encode_operands(nums_view(nums@).take(i as int));
        encode_num(out, &nums[i]);
        proof {
            let nv = nums_view(nums@);
            lemma_encode_operands_push(nv.take(i as int), nv[i as int]);
            assert(nv.take(i as int).push(nv[i as int]) =~= nv.take(i + 1));
            assert(nums@[i as int]@ == nv[i as int]);
            assert((old(out)@ + prev) + spec_encode_num(nv[i as int]) =~= old(out)@ + (prev
                + spec_encode_num(nv[i as int])));
        }
        i += 1;
    }
    proof {
        assert(nums_view(nums@).take(nums@.len() as int) =~= nums_view(nums@));
    }
}

/// Appends the one- or two-byte encoding of an operator code.
fn encode_op(out: &mut Vec<u8>, op: u16)
    ensures
        final(out)@ == old(out)@ + spec_encode_op(op),
{
    if op < 256 {
        out.push(op as u8);
        proof {
            assert(out@ =~= old(out)@ + spec_encode_op(op));
        }
    } else {
        out.push(12);
        out.push((op % 256) as u8);
        proof {
            assert(out@ =~= old(out)@ + spec_encode_op(op));
        }
    }
}

/// Appends the encoding of one entry: operands, then operator.
#[verifier::rlimit(100)]
fn encode_entry(out: &mut Vec<u8>, e: &Entry)
    requires
        entry_wf(e@),
    ensures
        final(out)@ == old(out)@ + spec_encode_entry(e@),
{
    let ghost em = e@;
    let ghost ops = entry_operands(em);
    match e {
        Entry::Version(s) => {
            encode_int(out, s.0 as i32);
            proof {
                lemma_encode_operands_singleton(NumModel::Int(s.0 as int));
            }
        },
        Entry::Notice(s) => {
            encode_int(out, s.0 as i32);
            proof {
                lemma_encode_operands_singleton(NumModel::Int(s.0 as int));
            }
        },
        Entry::FullName(s) => {
            encode_int(out, s.0 as i32);
            proof {
                lemma_encode_operands_singleton(NumModel::Int(s.0 as int));
            }
        },
        Entry::FamilyName(s) => {
            encode_int(out, s.0 as i32);
            proof {
                lemma_encode_operands_singleton(NumModel::Int(s.0 as int));
            }
        },
        Entry::Weight(s) => {
            encode_int(out, s.0 as i32);
            proof {
                lemma_encode_operands_singleton(NumModel::Int(s.0 as int));
            }
        },
        Entry::Copyright(s) => {
            encode_int(out, s.0 as i32);
            proof {
                lemma_encode_operands_singleton(NumModel::Int(s.0 as int));
            }
        },
        Entry::FontName(s) => {
            encode_int(out, s.0 as i32);
            proof {
                lemma_encode_operands_singleton(NumModel::Int(s.0 as int));
            }
        },
        Entry::FontBbox(v) => {
            encode_operands(out, v);
        },
        Entry::FontMatrix(v) => {
            encode_operands(out, v);
        },
        Entry::ItalicAngle(n) => {
            encode_num(out, n);
            proof {
                lemma_encode_operands_singleton(n@);
            }
        },
        Entry::UnderlinePosition(n) => {
            encode_num(out, n);
            proof {
                lemma_encode_operands_singleton(n@);
            }
        },
        Entry::UnderlineThickness(n) => {
            encode_num(out, n);
            proof {
                lemma_encode_operands_singleton(n@);
            }
        },
        Entry::StrokeWidth(n) => {
            encode_num(out, n);
            proof {
                lemma_encode_operands_singleton(n@);
            }
        },
        Entry::IsFixedPitch(b) => {
            let v: i32 = if *b {
                1
            } else {
                0
            };
            encode_int(out, v);
            proof {
                lemma_encode_operands_singleton(NumModel::Int(v as int));
            }
        },
        Entry::PaintType(v) => {
            encode_int(out, *v);
            proof {
                lemma_encode_operands_singleton(NumModel::Int(*v as int));
            }
        },
        Entry::CharstringType(v) => {
            encode_int(out, *v);
            proof {
                lemma_encode_operands_singleton(NumModel::Int(*v as int));
            }
        },
        Entry::UniqueId(v) => {
            encode_int(out, *v);
            proof {
                lemma_encode_operands_singleton(NumModel::Int(*v as int));
            }
        },
        Entry::CharstringsOffset(o) => {
            encode_offset_operand(out, *o);
        },
        Entry::Charset(o) => {
            encode_offset_operand(out, *o);
        },
        Entry::Encoding(o) => {
            encode_offset_operand(out, *o);
        },
        Entry::PrivateDictRange { size, offset } => {
            encode_int(out, *size as i32);
            encode_int(out, *offset as i32);
            proof {
                lemma_encode_operands_pair(
                    NumModel::Int(*size as int),
                    NumModel::Int(*offset as int),
                );
                assert((old(out)@ + spec_encode_int(*size as int)) + spec_encode_int(
                    *offset as int,
                ) =~= old(out)@ + (spec_encode_int(*size as int) + spec_encode_int(
                    *offset as int,
                )));
            }
        },
        Entry::FdArrayOffset(o) => {
            encode_offset_operand(out, *o);
        },
        Entry::FdSelectOffset(o) => {
            encode_offset_operand(out, *o);
        },
        Entry::VariationStoreOffset(o) => {
            encode_offset_operand(out, *o);
        },
        Entry::Raw(r) => {
            encode_operands(out, &r.operands);
        },
    }
    encode_op(out, entry_opcode_exec(e));
    proof {
        assert((old(out)@ + spec_encode_operands(ops)) + spec_encode_op(entry_opcode(em))
            =~= old(out)@ + (spec_encode_operands(ops) + spec_encode_op(entry_opcode(em))));
    }
}

/// Appends an offset-valued operand (a non-negative integer).
fn encode_offset_operand(out: &mut Vec<u8>, o: u32)
    requires
        offset_val_wf(o),
    ensures
        final(out)@ == old(out)@ + spec_encode_operands(seq![NumModel::Int(o as int)]),
{
    proof {
        lemma_encode_operands_singleton(NumModel::Int(o as int));
    }
    encode_int(out, o as i32);
}

/// The operator code of an entry.
fn entry_opcode_exec(e: &Entry) -> (op: u16)
    ensures
        op == entry_opcode(e@),
{
    match e {
        Entry::Version(_) => OP_VERSION,
        Entry::Notice(_) => OP_NOTICE,
        Entry::FullName(_) => OP_FULL_NAME,
        Entry::FamilyName(_) => OP_FAMILY_NAME,
        Entry::Weight(_) => OP_WEIGHT,
        Entry::Copyright(_) => OP_COPYRIGHT,
        Entry::FontName(_) => OP_FONT_NAME,
        Entry::FontBbox(_) => OP_FONT_BBOX,
        Entry::FontMatrix(_) => OP_FONT_MATRIX,
        Entry::ItalicAngle(_) => OP_ITALIC_ANGLE,
        Entry::UnderlinePosition(_) => OP_UNDERLINE_POSITION,
        Entry::UnderlineThickness(_) => OP_UNDERLINE_THICKNESS,
        Entry::StrokeWidth(_) => OP_STROKE_WIDTH,
        Entry::IsFixedPitch(_) => OP_IS_FIXED_PITCH,
        Entry::PaintType(_) => OP_PAINT_TYPE,
        Entry::CharstringType(_) => OP_CHARSTRING_TYPE,
        Entry::UniqueId(_) => OP_UNIQUE_ID,
        Entry::CharstringsOffset(_) => OP_CHARSTRINGS,
        Entry::Charset(_) => OP_CHARSET,
        Entry::Encoding(_) => OP_ENCODING,
        Entry::PrivateDictRange { .. } => OP_PRIVATE,
        Entry::FdArrayOffset(_) => OP_FD_ARRAY,
        Entry::FdSelectOffset(_) => OP_FD_SELECT,
        Entry::VariationStoreOffset(_) => OP_VSTORE,
        Entry::Raw(r) => r.operator,
    }
}

/// Checks that a stored real has its terminator nibble in the last byte and
/// nowhere earlier.
fn real_is_valid(s: &Vec<u8>) -> (b: bool)
    ensures
        b == real_wf(s@),
{
    if s.len() == 0 {
        return false;
    }
    let last = s[s.len() - 1];
    if !(last / 16 == 15 || last % 16 == 15) {
        return false;
    }
    let mut i: usize = 0;
    while i < s.len() - 1
        invariant
            i <= s@.len() - 1,
            s@.len() >= 1,
            forall|j: int| 0 <= j < i ==> !has_f_nibble(#[trigger] s@[j]),
        decreases s@.len() - i,
    {
        let x = s[i];
        if x / 16 == 15 || x % 16 == 15 {
            return false;
        }
        i += 1;
    }
    true
}

/// Checks one operand's well-formedness.
fn num_is_valid(n: &DictNumber) -> (b: bool)
    ensures
        b == num_wf(n@),
{
    match n {
        DictNumber::Int(_) => true,
        DictNumber::Real(s) => real_is_valid(s),
    }
}

/// Checks a whole operand list.
fn nums_are_valid(nums: &Vec<DictNumber>) -> (b: bool)
    ensures
        b == nums_wf(nums_view(nums@)),
{
    let mut i: usize = 0;
    while i < nums.len()
        invariant
            i <= nums@.len(),
            forall|j: int| 0 <= j < i ==> num_wf(#[trigger] nums_view(nums@)[j]),
        decreases nums@.len() - i,
    {
        if !num_is_valid(&nums[i]) {
            proof {
                assert(nums_view(nums@)[i as int] == nums@[i as int]@);
            }
            return false;
        }
        proof {
            assert(nums_view(nums@)[i as int] == nums@[i as int]@);
        }
        i += 1;
    }
    true
}

/// Checks whether an entry can be encoded and decoded back unchanged.
pub fn entry_is_valid(e: &Entry) -> (b: bool)
    ensures
        b == entry_wf(e@),
{
    match e {
        Entry::Version(_) => true,
        Entry::Notice(_) => true,
        Entry::FullName(_) => true,
        Entry::FamilyName(_) => true,
        Entry::Weight(_) => true,
        Entry::Copyright(_) => true,
        Entry::FontName(_) => true,
        Entry::FontBbox(v) => v.len() == 4 && nums_are_valid(v),
        Entry::FontMatrix(v) => v.len() == 6 && nums_are_valid(v),
        Entry::ItalicAngle(n) => num_is_valid(n),
        Entry::UnderlinePosition(n) => num_is_valid(n),
        Entry::UnderlineThickness(n) => num_is_valid(n),
        Entry::StrokeWidth(n) => num_is_valid(n),
        Entry::IsFixedPitch(_) => true,
        Entry::PaintType(_) => true,
        Entry::CharstringType(_) => true,
        Entry::UniqueId(_) => true,
        Entry::CharstringsOffset(o) => *o <= 2147483647,
        Entry::Charset(o) => *o <= 2147483647,
        Entry::Encoding(o) => *o <= 2147483647,
        Entry::PrivateDictRange { size, offset } => *size <= 2147483647 && *offset <= 2147483647,
        Entry::FdArrayOffset(o) => *o <= 2147483647,
        Entry::FdSelectOffset(o) => *o <= 2147483647,
        Entry::VariationStoreOffset(o) => *o <= 2147483647,
        Entry::Raw(r) => {
            let op = r.operator;
            let one_byte_raw = op < 256 && !(op == 28 || op == 29 || op == 30 || (32 <= op && op
                <= 254)) && op != 12;
            let escaped_raw = 3072 <= op && op <= 3327;
            let not_single = !(op == OP_VERSION || op == OP_NOTICE || op == OP_FULL_NAME || op
                == OP_FAMILY_NAME || op == OP_WEIGHT || op == OP_FONT_BBOX || op == OP_UNIQUE_ID
                || op == OP_CHARSET || op == OP_ENCODING || op == OP_CHARSTRINGS || op == OP_PRIVATE
                || op == OP_VSTORE);
            let not_escaped = !(op == OP_COPYRIGHT || op == OP_IS_FIXED_PITCH || op
                == OP_ITALIC_ANGLE || op == OP_UNDERLINE_POSITION || op == OP_UNDERLINE_THICKNESS
                || op == OP_PAINT_TYPE || op == OP_CHARSTRING_TYPE || op == OP_FONT_MATRIX || op
                == OP_STROKE_WIDTH || op == OP_FD_ARRAY || op == OP_FD_SELECT || op
                == OP_FONT_NAME);
            (one_byte_raw || escaped_raw) && not_single && not_escaped && nums_are_valid(
                &r.operands,
            )
        },
    }
}

/// Encodes an entry list into DICT bytes, using the minimal integer operand
/// encodings. Succeeds exactly when every entry is well formed; a malformed
/// entry fails with `MalformedDictOperand`.
#[verifier::loop_isolation(false)]
pub fn encode_entries(entries: &Vec<Entry>) -> (r: Result<Vec<u8>, CffError>)
    ensures
        match r {
            Ok(b) => entries_wf(entries_view(entries@)) && b@ == spec_encode_entries(
                entries_view(entries@),
            ),
            Err(e) => e == CffError::MalformedDictOperand && !entries_wf(entries_view(entries@)),
        },
{
    let ghost ev = entries_view(entries@);
    let mut out: Vec<u8> = Vec::new();
    proof {
        assert(ev.take(0) =~= Seq::<EntryModel>::empty());
        assert(out@ =~= spec_encode_entries(ev.take(0)));
    }
    let mut i: usize = 0;
    while i < entries.len()
        invariant
            i <= entries@.len(),
            out@ == spec_encode_entries(ev.take(i as int)),
            forall|j: int| 0 <= j < i ==> entry_wf(#[trigger] ev[j]),
        decreases entries@.len() - i,
    {
        proof {
            assert(ev[i as int] == entries@[i as int]@);
        }
        if !entry_is_valid(&entries[i]) {
            return Err(CffError::MalformedDictOperand);
        }
        let ghost prev = spec_encode_entries(ev.take(i as int));
        encode_entry(&mut out, &entries[i]);
        proof {
            lemma_encode_entries_push(ev.take(i as int), ev[i as int]);
            assert(ev.take(i as int).push(ev[i as int]) =~= ev.take(i + 1));
        }
        i += 1;
    }
    proof {
        assert(ev.take(entries@.len() as int) =~= ev);
    }
    Ok(out)
}

/// Encoding a concatenation of entry lists concatenates their encodings.
pub proof fn lemma_encode_entries_concat(a: Seq<EntryModel>, b: Seq<EntryModel>)
    ensures
        spec_encode_entries(a + b) =~= spec_encode_entries(a) + spec_encode_entries(b),
    decreases b.len(),
{
    if b.len() == 0 {
        assert(a + b =~= a);
    } else {
        lemma_encode_entries_concat(a, b.drop_last());
        lemma_encode_entries_push(b.drop_last(), b.last());
        assert(a + b.drop_last().push(b.last()) =~= (a + b.drop_last()).push(b.last()));
        lemma_encode_entries_push(a + b.drop_last(), b.last());
        assert(b.drop_last().push(b.last()) =~= b);
        assert(spec_encode_entries(a) + (spec_encode_entries(b.drop_last()) + spec_encode_entry(
            b.last(),
        )) =~= (spec_encode_entries(a) + spec_encode_entries(b.drop_last())) + spec_encode_entry(
            b.last(),
        ));
    }
}

} // verus!
