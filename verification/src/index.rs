//! The generic CFF INDEX structure: an array of byte strings stored as a
//! count, an offset array of `count + 1` one-based offsets, and a contiguous
//! data blob sliced by consecutive offset pairs.

use vstd::prelude::*;
use vstd::slice::{slice_subrange, slice_to_vec};
use vstd::arithmetic::div_mod::lemma_fundamental_div_mod;

use crate::error::CffError;
use crate::offsets::{
    be_bytes, be_value, lemma_be_bytes_len, lemma_be_roundtrip, lemma_be_value_bounds,
    lemma_pow256_increases, lemma_pow256_values, min_off_size, pow256, read_offset,
    spec_min_off_size, write_offset,
};

verus! {

/// A parsed INDEX: `count` elements, offsets stored logically as `u32` and
/// encoded at width `off_size`, and the data blob.
#[derive(Clone, Debug, PartialEq, Eq)]
pub struct Index {
    pub count: u16,
    pub off_size: u8,
    pub offsets: Vec<u32>,
    pub data: Vec<u8>,
}

/// The mathematical model of an [`Index`].
#[verifier::ext_equal]
pub ghost struct IndexModel {
    pub count: u16,
    pub off_size: u8,
    pub offsets: Seq<u32>,
    pub data: Seq<u8>,
}

impl View for Index {
    type V = IndexModel;

    open spec fn view(&self) -> IndexModel {
        IndexModel {
            count: self.count,
            off_size: self.off_size,
            offsets: self.offsets@,
            data: self.data@,
        }
    }
}

/// The canonical in-memory form of an empty INDEX.
pub open spec fn empty_index_model() -> IndexModel {
    IndexModel { count: 0, off_size: 1, offsets: seq![1u32], data: Seq::empty() }
}

/// Offsets start at 1 and never decrease.
pub open spec fn nondecreasing_from_one(offs: Seq<u32>) -> bool {
    &&& offs.len() >= 1
    &&& offs[0] == 1
    &&& forall|i: int| 0 < i < offs.len() ==> offs[i - 1] <= #[trigger] offs[i]
}

impl IndexModel {
    /// The structural invariants of a valid INDEX.
    pub open spec fn wf(self) -> bool {
        &&& self.offsets.len() == self.count + 1
        &&& nondecreasing_from_one(self.offsets)
        &&& self.offsets[self.count as int] - 1 == self.data.len()
        &&& 1 <= self.off_size <= 4
        &&& self.offsets[self.count as int] < pow256(self.off_size as nat)
        &&& (self.count == 0 ==> self.off_size == 1)
    }

    /// The bytes of element `i` (0-based): offsets are 1-based into `data`.
    pub open spec fn element(self, i: int) -> Seq<u8> {
        self.data.subrange(self.offsets[i] - 1, self.offsets[i + 1] - 1)
    }

    /// All elements in order.
    pub open spec fn elements(self) -> Seq<Seq<u8>> {
        Seq::new(self.count as nat, |i: int| self.element(i))
    }
}

/// In a non-decreasing offset sequence, earlier offsets are no larger than
/// later ones.
pub proof fn lemma_nondecreasing_le(offs: Seq<u32>, i: int, j: int)
    requires
        nondecreasing_from_one(offs),
        0 <= i <= j < offs.len(),
    ensures
        offs[i] <= offs[j],
    decreases j - i,
{
    if i < j {
        lemma_nondecreasing_le(offs, i, j - 1);
        assert(offs[j - 1] <= offs[j]);
    }
}

/// Every offset of a well-formed INDEX is at least 1 and at most
/// `data.len() + 1`.
pub proof fn lemma_wf_offset_bounds(m: IndexModel, i: int)
    requires
        m.wf(),
        0 <= i <= m.count,
    ensures
        1 <= m.offsets[i],
        m.offsets[i] <= m.data.len() + 1,
{
    lemma_nondecreasing_le(m.offsets, 0, i);
    lemma_nondecreasing_le(m.offsets, i, m.count as int);
}

/// The offset array encoded at width `w`, element by element.
pub open spec fn offsets_bytes(offs: Seq<u32>, w: nat) -> Seq<u8>
    decreases offs.len(),
{
    if offs.len() == 0 {
        Seq::empty()
    } else {
        be_bytes(offs[0] as int, w) + offsets_bytes(offs.skip(1), w)
    }
}

pub proof fn lemma_offsets_bytes_len(offs: Seq<u32>, w: nat)
    ensures
        offsets_bytes(offs, w).len() == offs.len() * w,
    decreases offs.len(),
{
    if offs.len() == 0 {
    } else {
        lemma_offsets_bytes_len(offs.skip(1), w);
        lemma_be_bytes_len(offs[0] as int, w);
        assert((offs.len() - 1) * w + w == offs.len() * w) by (nonlinear_arith);
    }
}

/// Slicing the encoded offset array at element boundaries recovers each
/// element's encoding.
pub proof fn lemma_offsets_bytes_index(offs: Seq<u32>, w: nat, i: int)
    requires
        0 <= i < offs.len(),
    ensures
        offsets_bytes(offs, w).subrange(i * w, (i + 1) * w) =~= be_bytes(offs[i] as int, w),
    decreases i,
{
    let full = offsets_bytes(offs, w);
    let head = be_bytes(offs[0] as int, w);
    let rest = offsets_bytes(offs.skip(1), w);
    assert(full == head + rest);
    lemma_offsets_bytes_len(offs, w);
    lemma_be_bytes_len(offs[0] as int, w);
    lemma_offsets_bytes_len(offs.skip(1), w);
    assert(0 <= i * w && (i + 1) * w == i * w + w && (i + 1) * w <= offs.len() * w)
        by (nonlinear_arith)
        requires
            0 <= i < offs.len(),
            w >= 0,
    ;
    if i == 0 {
        assert(0 * w == 0 && 1 * w == w) by (nonlinear_arith);
        assert(full.subrange(0, w as int) =~= head);
    } else {
        lemma_offsets_bytes_index(offs.skip(1), w, i - 1);
        assert((i - 1) * w == i * w - w && i * w - w >= 0 && ((i - 1) + 1) * w == i * w)
            by (nonlinear_arith)
            requires
                i >= 1,
                w >= 0,
        ;
        assert(offs.skip(1)[i - 1] == offs[i]);
        assert(rest.subrange(i * w - w, i * w - w + w) =~= be_bytes(offs[i] as int, w));
        assert(full.subrange(i * w, (i + 1) * w) =~= rest.subrange(i * w - w, i * w - w + w));
    }
}

/// Appending one offset appends its encoding.
pub proof fn lemma_offsets_bytes_push(offs: Seq<u32>, x: u32, w: nat)
    ensures
        offsets_bytes(offs.push(x), w) =~= offsets_bytes(offs, w) + be_bytes(x as int, w),
    decreases offs.len(),
{
    if offs.len() == 0 {
        assert(offs.push(x)[0] == x);
        assert(offs.push(x).skip(1) =~= Seq::<u32>::empty());
        assert(offsets_bytes(offs.push(x).skip(1), w) == Seq::<u8>::empty());
        assert(offsets_bytes(offs, w) == Seq::<u8>::empty());
        assert(offsets_bytes(offs.push(x), w) == be_bytes(x as int, w) + Seq::<u8>::empty());
        assert(be_bytes(x as int, w) + Seq::<u8>::empty() =~= Seq::<u8>::empty() + be_bytes(
            x as int,
            w,
        ));
    } else {
        lemma_offsets_bytes_push(offs.skip(1), x, w);
        assert(offs.push(x).skip(1) =~= offs.skip(1).push(x));
        assert(offs.push(x)[0] == offs[0]);
        let h = be_bytes(offs[0] as int, w);
        assert(offsets_bytes(offs.push(x), w) == h + offsets_bytes(offs.skip(1).push(x), w));
        assert(offsets_bytes(offs.skip(1).push(x), w) =~= offsets_bytes(offs.skip(1), w)
            + be_bytes(x as int, w));
        assert(offsets_bytes(offs, w) == h + offsets_bytes(offs.skip(1), w));
        assert(h + (offsets_bytes(offs.skip(1), w) + be_bytes(x as int, w)) =~= (h + offsets_bytes(
            offs.skip(1),
            w,
        )) + be_bytes(x as int, w));
    }
}

/// Slicing a concatenation inside its middle part slices that part alone.
pub proof fn lemma_subrange_of_concat_middle(a: Seq<u8>, b: Seq<u8>, c: Seq<u8>, x: int, y: int)
    requires
        0 <= x <= y <= b.len(),
    ensures
        (a + b + c).subrange(a.len() + x, a.len() + y) =~= b.subrange(x, y),
{
}

/// Slicing a concatenation at its final part slices that part alone.
pub proof fn lemma_subrange_of_concat_last(a: Seq<u8>, b: Seq<u8>, c: Seq<u8>)
    ensures
        (a + b + c).subrange((a.len() + b.len()) as int, (a.len() + b.len() + c.len()) as int)
            =~= c,
{
}

/// The serialized form: big-endian count, then (unless empty) the offset
/// width, the offset array, and the data blob.
pub open spec fn spec_serialize(m: IndexModel) -> Seq<u8> {
    let cnt = seq![(m.count / 256) as u8, (m.count % 256) as u8];
    if m.count == 0 {
        cnt
    } else {
        cnt + seq![m.off_size] + offsets_bytes(m.offsets, m.off_size as nat) + m.data
    }
}

/// The offsets read back from the serialized form: `n` offsets of width `w`
/// starting at byte 3.
pub open spec fn parsed_offsets(b: Seq<u8>, n: nat, w: nat) -> Seq<u32> {
    Seq::new(n, |i: int| be_value(b.subrange(3 + i * w, 3 + (i + 1) * w)) as u32)
}

/// The parse function: returns the parsed INDEX and the number of bytes
/// consumed, or the first error encountered.
pub open spec fn spec_parse(b: Seq<u8>) -> Result<(IndexModel, int), CffError> {
    if b.len() < 2 {
        Err(CffError::TruncatedIndex)
    } else {
        let count = (b[0] as int) * 256 + b[1];
        if count == 0 {
            Ok((empty_index_model(), 2))
        } else if b.len() < 3 {
            Err(CffError::TruncatedIndex)
        } else {
            let w = b[2] as int;
            if !(1 <= w <= 4) {
                Err(CffError::InvalidOffsetSize)
            } else if b.len() < 3 + (count + 1) * w {
                Err(CffError::TruncatedIndex)
            } else {
                let offs = parsed_offsets(b, (count + 1) as nat, w as nat);
                if !nondecreasing_from_one(offs) {
                    Err(CffError::MalformedOffsets)
                } else {
                    let dstart = 3 + (count + 1) * w;
                    let dlen = offs[count] - 1;
                    if b.len() < dstart + dlen {
                        Err(CffError::TruncatedIndex)
                    } else {
                        Ok(
                            (
                                IndexModel {
                                    count: count as u16,
                                    off_size: b[2],
                                    offsets: offs,
                                    data: b.subrange(dstart, dstart + dlen),
                                },
                                dstart + dlen,
                            ),
                        )
                    }
                }
            }
        }
    }
}

/// Whatever parses successfully is a well-formed INDEX.
#[verifier::rlimit(100)]
pub proof fn lemma_parse_wf(b: Seq<u8>)
    requires
        spec_parse(b) is Ok,
    ensures
        spec_parse(b)->Ok_0.0.wf(),
{
    let (m, n) = spec_parse(b)->Ok_0;
    let count = (b[0] as int) * 256 + b[1];
    if count == 0 {
        lemma_pow256_values();
    } else {
        let w = b[2] as nat;
        lemma_nondecreasing_le(m.offsets, 0, count);
        lemma_pow256_values();
        lemma_pow256_increases(w, 4);
        assert forall|i: int| 0 <= i <= count implies m.offsets[i] < pow256(m.off_size as nat) by {
            assert(0 <= i * w && i * w + w == (i + 1) * w && (i + 1) * w <= (count + 1) * w)
                by (nonlinear_arith)
                requires
                    0 <= i <= count,
                    w >= 1,
            ;
            let s = b.subrange(3 + i * w, 3 + (i + 1) * w);
            assert(s.len() == w);
            lemma_be_value_bounds(s);
        }
    }
}

/// One serialized offset read back at its boundaries yields the original
/// offset.
#[verifier::rlimit(100)]
pub proof fn lemma_serialized_offset_at(m: IndexModel, i: int)
    requires
        m.wf(),
        m.count > 0,
        0 <= i <= m.count,
    ensures
        be_value(
            spec_serialize(m).subrange(
                3 + i * (m.off_size as int),
                3 + (i + 1) * (m.off_size as int),
            ),
        ) == m.offsets[i],
{
    let w = m.off_size as nat;
    let cnt = seq![(m.count / 256) as u8, (m.count % 256) as u8];
    let a = cnt + seq![m.off_size];
    let ob = offsets_bytes(m.offsets, w);
    let b = spec_serialize(m);
    assert(b == a + ob + m.data);
    assert(a.len() == 3);
    lemma_offsets_bytes_len(m.offsets, w);
    assert(0 <= i * w && i * w + w == (i + 1) * w && (i + 1) * w <= (m.count + 1) * w)
        by (nonlinear_arith)
        requires
            0 <= i <= m.count,
            w >= 1,
    ;
    lemma_subrange_of_concat_middle(a, ob, m.data, i * w, i * w + w);
    lemma_offsets_bytes_index(m.offsets, w, i);
    lemma_nondecreasing_le(m.offsets, i, m.count as int);
    lemma_wf_offset_bounds(m, i);
    lemma_be_roundtrip(m.offsets[i] as int, w);
}

/// Law: round trip. Serializing a well-formed INDEX and parsing the result
/// yields the same INDEX back, consuming exactly the serialized bytes.
#[verifier::rlimit(100)]
pub proof fn lemma_serialize_parse_roundtrip(m: IndexModel)
    requires
        m.wf(),
    ensures
        spec_parse(spec_serialize(m)) == Ok::<(IndexModel, int), CffError>(
            (m, spec_serialize(m).len() as int),
        ),
{
    let b = spec_serialize(m);
    let count = m.count as int;
    lemma_fundamental_div_mod(count, 256);
    if m.count == 0 {
        assert(b.len() == 2);
        assert((b[0] as int) * 256 + b[1] == count);
        let e = empty_index_model();
        assert(m.offsets =~= e.offsets);
        assert(m.data =~= e.data);
        assert(m =~= e);
    } else {
        let w = m.off_size as nat;
        let cnt = seq![(m.count / 256) as u8, (m.count % 256) as u8];
        let a = cnt + seq![m.off_size];
        let ob = offsets_bytes(m.offsets, w);
        assert(b == a + ob + m.data);
        lemma_offsets_bytes_len(m.offsets, w);
        assert(b.len() == 3 + (count + 1) * w + m.data.len());
        assert((b[0] as int) * 256 + b[1] == count);
        assert(b[2] == m.off_size);
        assert(3 + (count + 1) * w <= b.len());
        let offs = parsed_offsets(b, (count + 1) as nat, w);
        assert forall|i: int| 0 <= i <= count implies offs[i] == m.offsets[i] by {
            lemma_serialized_offset_at(m, i);
        }
        assert(offs =~= m.offsets);
        assert(nondecreasing_from_one(offs));
        let dstart = 3 + (count + 1) * w;
        let dlen = offs[count] - 1;
        assert(dlen == m.data.len());
        assert(b.len() == dstart + dlen);
        lemma_subrange_of_concat_last(a, ob, m.data);
        assert(b.subrange(dstart, dstart + dlen) =~= m.data);
        let parsed = spec_parse(b)->Ok_0.0;
        assert(parsed =~= m);
    }
}

/// Law: empty INDEX. An empty INDEX serializes to exactly the two zero
/// count bytes, and those two bytes parse back to the empty INDEX.
pub proof fn lemma_empty_index(m: IndexModel)
    requires
        m.wf(),
        m.count == 0,
    ensures
        spec_serialize(m) =~= seq![0u8, 0u8],
        spec_parse(spec_serialize(m)) == Ok::<(IndexModel, int), CffError>((m, 2)),
{
    lemma_serialize_parse_roundtrip(m);
}

/// Defensive element access: exactly which error each malformed shape gives.
pub open spec fn spec_get(m: IndexModel, i: int) -> Result<Seq<u8>, CffError> {
    if i >= m.count {
        Err(CffError::IndexOutOfBounds)
    } else if m.offsets.len() != m.count + 1 {
        Err(CffError::MalformedOffsets)
    } else {
        let s = m.offsets[i] as int;
        let e = m.offsets[i + 1] as int;
        if s < 1 || e < s || e - 1 > m.data.len() {
            Err(CffError::MalformedOffsets)
        } else {
            Ok(m.data.subrange(s - 1, e - 1))
        }
    }
}

/// On a well-formed INDEX, `spec_get` returns exactly the element.
pub proof fn lemma_get_wf(m: IndexModel, i: int)
    requires
        m.wf(),
        0 <= i < m.count,
    ensures
        spec_get(m, i) == Ok::<Seq<u8>, CffError>(m.element(i)),
{
    lemma_wf_offset_bounds(m, i);
    lemma_wf_offset_bounds(m, i + 1);
}

/// The total length of a sequence of byte strings.
pub open spec fn sum_lens(s: Seq<Seq<u8>>) -> int
    decreases s.len(),
{
    if s.len() == 0 {
        0
    } else {
        sum_lens(s.drop_last()) + s.last().len()
    }
}

pub proof fn lemma_sum_lens_snoc(s: Seq<Seq<u8>>, i: int)
    requires
        0 <= i < s.len(),
    ensures
        sum_lens(s.take(i + 1)) == sum_lens(s.take(i)) + s[i].len(),
{
    assert(s.take(i + 1).drop_last() =~= s.take(i));
    assert(s.take(i + 1).last() == s[i]);
}

pub proof fn lemma_sum_lens_prefix(s: Seq<Seq<u8>>, i: int)
    requires
        0 <= i <= s.len(),
    ensures
        sum_lens(s.take(i)) <= sum_lens(s),
    decreases s.len(),
{
    if i == s.len() {
        assert(s.take(i) =~= s);
    } else {
        assert(s.drop_last().take(i) =~= s.take(i));
        lemma_sum_lens_prefix(s.drop_last(), i);
    }
}

/// The views of a vector of byte vectors.
pub open spec fn byte_views(items: Seq<Vec<u8>>) -> Seq<Seq<u8>> {
    items.map_values(|v: Vec<u8>| v@)
}

/// Whether a sequence of elements fits the INDEX format's capacity: at most
/// 65535 elements and offsets representable in 4 bytes.
pub open spec fn fits_index(s: Seq<Seq<u8>>) -> bool {
    s.len() <= 65535 && sum_lens(s) <= 0xFFFF_FFFE
}

impl Index {
    /// Parses one INDEX from the front of `bytes`, returning it and the
    /// number of bytes consumed. Empty INDEXes consume only the two count
    /// bytes; nothing past the INDEX is read.
    #[verifier::rlimit(100)]
    #[verifier::loop_isolation(false)]
    pub fn parse(bytes: &[u8]) -> (r: Result<(Index, usize), CffError>)
        ensures
            match spec_parse(bytes@) {
                Ok((m, n)) => r matches Ok(p) && p.0@ =~= m && p.1 == n,
                Err(e) => r == Err::<(Index, usize), CffError>(e),
            },
    {
        let n = bytes.len();
        if n < 2 {
            return Err(CffError::TruncatedIndex);
        }
        let c0 = *vstd::slice::slice_index_get(bytes, 0) as usize;
        let c1 = *vstd::slice::slice_index_get(bytes, 1) as usize;
        let count_us: usize = c0 * 256 + c1;
        if count_us == 0 {
            let idx = Index { count: 0, off_size: 1, offsets: vec![1u32], data: Vec::new() };
            proof {
                assert(idx@.offsets =~= empty_index_model().offsets);
                assert(idx@.data =~= empty_index_model().data);
                assert(idx@ =~= empty_index_model());
            }
            return Ok((idx, 2));
        }
        if n < 3 {
            return Err(CffError::TruncatedIndex);
        }
        let w = *vstd::slice::slice_index_get(bytes, 2);
        if w < 1 || w > 4 {
            return Err(CffError::InvalidOffsetSize);
        }
        let ws = w as usize;
        let n_offs: usize = count_us + 1;
        proof {
            assert(n_offs * ws <= 65536 * 4) by (nonlinear_arith)
                requires
                    n_offs <= 65536,
                    ws <= 4,
            ;
        }
        let offs_bytes_len: usize = n_offs * ws;
        if offs_bytes_len > n - 3 {
            return Err(CffError::TruncatedIndex);
        }
        let ghost gw = w as nat;
        let ghost goffs = parsed_offsets(bytes@, n_offs as nat, gw);
        let mut offsets: Vec<u32> = Vec::new();
        let mut i: usize = 0;
        while i < n_offs
            invariant
                i <= n_offs,
                offsets@.len() == i,
                forall|j: int|
                    0 <= j < i ==> #[trigger] offsets@[j] == be_value(
                        bytes@.subrange(3 + j * (ws as int), 3 + (j + 1) * (ws as int)),
                    ) as u32,
            decreases n_offs - i,
        {
            proof {
                assert(i * ws >= 0 && (i + 1) * ws == i * ws + ws && (i + 1) * ws <= n_offs * ws)
                    by (nonlinear_arith)
                    requires
                        0 <= i < n_offs,
                        ws >= 1,
                ;
            }
            let start = 3 + i * ws;
            let sl = slice_subrange(bytes, start, start + ws);
            let v = match read_offset(sl, w) {
                Ok(v) => v,
                Err(e) => {
                    return Err(e);
                },
            };
            proof {
                let gi = i as int;
                assert(sl@ =~= sl@.take(ws as int));
                assert(bytes@.subrange(3 + gi * (ws as int), 3 + (gi + 1) * (ws as int)) == sl@);
                assert(v == be_value(sl@) as u32);
            }
            offsets.push(v);
            i += 1;
        }
        proof {
            assert(gw as int == ws as int);
            assert forall|j: int| 0 <= j < n_offs implies offsets@[j] == goffs[j] by {
                assert(offsets@[j] == be_value(
                    bytes@.subrange(3 + j * (ws as int), 3 + (j + 1) * (ws as int)),
                ) as u32);
            }
            assert(offsets@ =~= goffs);
        }
        if !check_offsets_nondecreasing(&offsets) {
            return Err(CffError::MalformedOffsets);
        }
        let dstart: usize = 3 + offs_bytes_len;
        let last = offsets[n_offs - 1];
        proof {
            lemma_nondecreasing_le(offsets@, 0, n_offs - 1);
        }
        let dlen_u32 = last - 1;
        let dlen = dlen_u32 as usize;
        if dlen > n - dstart {
            return Err(CffError::TruncatedIndex);
        }
        let data = slice_to_vec(slice_subrange(bytes, dstart, dstart + dlen));
        let idx = Index { count: count_us as u16, off_size: w, offsets, data };
        proof {
            let (m, cons) = spec_parse(bytes@)->Ok_0;
            assert(idx@.offsets =~= m.offsets);
            assert(idx@.data =~= m.data);
            assert(idx@ =~= m);
        }
        Ok((idx, dstart + dlen))
    }

    /// Serializes a well-formed INDEX, mirroring `parse`'s layout exactly.
    /// An empty INDEX yields exactly the two count bytes.
    #[verifier::rlimit(100)]
    #[verifier::loop_isolation(false)]
    pub fn serialize(&self) -> (r: Vec<u8>)
        requires
            self@.wf(),
        ensures
            r@ == spec_serialize(self@),
            self.count == 0 ==> r@.len() == 2,
    {
        let ghost cnt = seq![(self.count / 256) as u8, (self.count % 256) as u8];
        let mut out: Vec<u8> = Vec::new();
        out.push((self.count / 256) as u8);
        out.push((self.count % 256) as u8);
        proof {
            assert(out@ =~= cnt);
        }
        if self.count == 0 {
            return out;
        }
        out.push(self.off_size);
        let ghost w = self.off_size as nat;
        let ghost head = cnt + seq![self.off_size];
        proof {
            assert(out@ =~= head);
        }
        let n_offs = self.offsets.len();
        let mut i: usize = 0;
        while i < n_offs
            invariant
                i <= n_offs,
                out@ == head + offsets_bytes(self.offsets@.take(i as int), w),
            decreases n_offs - i,
        {
            let b = match write_offset(self.offsets[i], self.off_size) {
                Ok(b) => b,
                Err(e) => {
                    proof {
                        assert(false);
                    }
                    return Vec::new();
                },
            };
            let ghost prev = offsets_bytes(self.offsets@.take(i as int), w);
            push_bytes(&mut out, &b);
            proof {
                lemma_offsets_bytes_push(self.offsets@.take(i as int), self.offsets@[i as int], w);
                assert(self.offsets@.take(i as int).push(self.offsets@[i as int]) =~= self
                    .offsets@
                    .take(i + 1));
                assert(offsets_bytes(self.offsets@.take(i + 1), w) == prev + b@);
                assert((head + prev) + b@ =~= head + (prev + b@));
            }
            i += 1;
        }
        let ghost ob = offsets_bytes(self.offsets@, w);
        proof {
            assert(self.offsets@.take(n_offs as int) =~= self.offsets@);
            assert(out@ == head + ob);
        }
        push_bytes(&mut out, &self.data);
        proof {
            assert(out@ == (head + ob) + self.data@);
            assert((head + ob) + self.data@ =~= ((cnt + seq![self.off_size]) + ob) + self.data@);
            assert(spec_serialize(self@) == ((cnt + seq![self.off_size]) + ob) + self.data@);
        }
        out
    }

    /// Bounds-checked element access. Fails with `IndexOutOfBounds` past the
    /// declared count and with `MalformedOffsets` on any inconsistent offset
    /// pair, never panicking; on a well-formed INDEX it returns exactly the
    /// element's bytes.
    pub fn get(&self, i: usize) -> (r: Result<Vec<u8>, CffError>)
        ensures
            match spec_get(self@, i as int) {
                Ok(s) => r matches Ok(v) && v@ =~= s,
                Err(e) => r == Err::<Vec<u8>, CffError>(e),
            },
            self@.wf() && i < self.count ==> (r matches Ok(v) && v@ =~= self@.element(i as int)),
    {
        proof {
            if self@.wf() && i < self.count {
                lemma_get_wf(self@, i as int);
            }
        }
        if i >= self.count as usize {
            return Err(CffError::IndexOutOfBounds);
        }
        if self.offsets.len() != self.count as usize + 1 {
            return Err(CffError::MalformedOffsets);
        }
        let s = self.offsets[i];
        let e = self.offsets[i + 1];
        if s < 1 || e < s || (e - 1) as usize > self.data.len() {
            return Err(CffError::MalformedOffsets);
        }
        let sl = slice_subrange(self.data.as_slice(), (s - 1) as usize, (e - 1) as usize);
        Ok(slice_to_vec(sl))
    }

    /// Builds a well-formed INDEX from elements, computing cumulative offsets
    /// and choosing the minimal sufficient offset width for the largest
    /// offset. Fails with `LimitExceeded` when the elements do not fit the
    /// format: more than 65535 of them, or more data than 4-byte offsets can
    /// address.
    #[verifier::rlimit(100)]
    #[verifier::loop_isolation(false)]
    pub fn from_elements(items: &Vec<Vec<u8>>) -> (r: Result<Index, CffError>)
        ensures
            match r {
                Ok(idx) => {
                    &&& fits_index(byte_views(items@))
                    &&& idx@.wf()
                    &&& idx@.count == items@.len()
                    &&& idx@.elements() =~= byte_views(items@)
                    &&& idx@.off_size == spec_min_off_size(idx@.offsets[idx@.count as int])
                    &&& idx@.offsets[idx@.count as int] == sum_lens(byte_views(items@)) + 1
                },
                Err(e) => e == CffError::LimitExceeded && !fits_index(byte_views(items@)),
            },
    {
        let ghost views = byte_views(items@);
        if items.len() > 65535 {
            return Err(CffError::LimitExceeded);
        }
        let n = items.len();
        let mut offsets: Vec<u32> = Vec::new();
        offsets.push(1);
        let mut data: Vec<u8> = Vec::new();
        let mut i: usize = 0;
        while i < n
            invariant
                i <= n,
                n == items@.len(),
                n <= 65535,
                views == byte_views(items@),
                views.len() == n,
                offsets@.len() == i + 1,
                offsets@[0] == 1,
                data@.len() <= 0xFFFF_FFFE,
                data@.len() == sum_lens(views.take(i as int)),
                offsets@[i as int] == data@.len() + 1,
                forall|j: int| 0 < j <= i ==> offsets@[j - 1] <= #[trigger] offsets@[j],
                forall|j: int| 0 <= j <= i ==> 1 <= #[trigger] offsets@[j] <= data@.len() + 1,
                forall|j: int|
                    0 <= j < i ==> data@.subrange(
                        offsets@[j] - 1,
                        offsets@[j + 1] - 1,
                    ) =~= #[trigger] views[j],
            decreases n - i,
        {
            let l = items[i].len();
            proof {
                lemma_sum_lens_snoc(views, i as int);
            }
            if l > 0xFFFF_FFFE - data.len() {
                proof {
                    lemma_sum_lens_prefix(views, i + 1);
                }
                return Err(CffError::LimitExceeded);
            }
            let ghost old_data = data@;
            let ghost old_offsets = offsets@;
            push_bytes(&mut data, &items[i]);
            offsets.push((data.len() + 1) as u32);
            proof {
                assert(offsets@ == old_offsets.push((old_data.len() + views[i as int].len()
                    + 1) as u32));
                assert(data@ == old_data + views[i as int]);
                assert forall|j: int| 0 <= j < i + 1 implies data@.subrange(
                    offsets@[j] - 1,
                    offsets@[j + 1] - 1,
                ) =~= #[trigger] views[j] by {
                    if j < i {
                        assert(offsets@[j] == old_offsets[j]);
                        assert(offsets@[j + 1] == old_offsets[j + 1]);
                        assert(old_offsets[j + 1] <= old_data.len() + 1);
                        assert(old_data.subrange(old_offsets[j] - 1, old_offsets[j + 1] - 1)
                            =~= views[j]);
                        assert(data@.subrange(offsets@[j] - 1, offsets@[j + 1] - 1) =~= old_data
                            .subrange(old_offsets[j] - 1, old_offsets[j + 1] - 1));
                    } else {
                        assert(offsets@[j] == old_offsets[i as int]);
                        assert(offsets@[j] - 1 == old_data.len());
                        assert(data@.subrange(offsets@[j] - 1, offsets@[j + 1] - 1) =~= views[j]);
                    }
                }
            }
            i += 1;
        }
        proof {
            assert(views.take(n as int) =~= views);
        }
        let last_off = offsets[n];
        let off_size = min_off_size(last_off);
        let idx = Index { count: n as u16, off_size, offsets, data };
        proof {
            assert(idx@.elements() =~= views);
        }
        Ok(idx)
    }

    /// An executable check of the INDEX invariants.
    pub fn is_valid(&self) -> (b: bool)
        ensures
            b == self@.wf(),
    {
        proof {
            lemma_pow256_values();
        }
        if self.offsets.len() != self.count as usize + 1 {
            return false;
        }
        if !check_offsets_nondecreasing(&self.offsets) {
            return false;
        }
        let last = self.offsets[self.count as usize];
        proof {
            lemma_nondecreasing_le(self.offsets@, 0, self.count as int);
        }
        if !((last - 1) as usize == self.data.len()) {
            return false;
        }
        if self.off_size < 1 || self.off_size > 4 {
            return false;
        }
        let bound_ok: bool = if self.off_size == 1 {
            last < 256
        } else if self.off_size == 2 {
            last < 65536
        } else if self.off_size == 3 {
            last < 16777216
        } else {
            true
        };
        if !bound_ok {
            return false;
        }
        if self.count == 0 && self.off_size != 1 {
            return false;
        }
        true
    }
}

/// Checks that an offset array is 1-based and non-decreasing.
fn check_offsets_nondecreasing(offsets: &Vec<u32>) -> (b: bool)
    ensures
        b == nondecreasing_from_one(offsets@),
{
    if offsets.len() == 0 {
        return false;
    }
    if offsets[0] != 1 {
        return false;
    }
    let mut i: usize = 1;
    while i < offsets.len()
        invariant
            1 <= i <= offsets@.len(),
            offsets@.len() >= 1,
            offsets@[0] == 1,
            forall|j: int| 0 < j < i ==> offsets@[j - 1] <= #[trigger] offsets@[j],
        decreases offsets@.len() - i,
    {
        if offsets[i - 1] > offsets[i] {
            return false;
        }
        i += 1;
    }
    true
}

/// Appends the bytes of `src` to `out`.
pub(crate) fn push_bytes(out: &mut Vec<u8>, src: &Vec<u8>)
    ensures
        final(out)@ == old(out)@ + src@,
{
    let mut j: usize = 0;
    while j < src.len()
        invariant
            j <= src@.len(),
            out@ == old(out)@ + src@.take(j as int),
        decreases src@.len() - j,
    {
        out.push(src[j]);
        proof {
            assert(old(out)@ + src@.take(j as int) + seq![src@[j as int]] =~= old(out)@ + src@.take(
                j + 1,
            ));
        }
        j += 1;
    }
    proof {
        assert(src@.take(src@.len() as int) =~= src@);
    }
}

/// As `lemma_serialize_parse_roundtrip`, with arbitrary bytes following the
/// serialized INDEX: parsing stops at the INDEX's end and ignores the rest.
#[verifier::rlimit(100)]
pub proof fn lemma_parse_serialize_roundtrip_with(m: IndexModel, rest: Seq<u8>)
    requires
        m.wf(),
    ensures
        spec_parse(spec_serialize(m) + rest) == Ok::<(IndexModel, int), CffError>(
            (m, spec_serialize(m).len() as int),
        ),
{
    let sb = spec_serialize(m);
    let b = sb + rest;
    let count = m.count as int;
    lemma_fundamental_div_mod(count, 256);
    if m.count == 0 {
        assert(sb.len() == 2);
        assert(b[0] == sb[0] && b[1] == sb[1]);
        assert((b[0] as int) * 256 + b[1] == count);
        let e = empty_index_model();
        assert(m.offsets =~= e.offsets);
        assert(m.data =~= e.data);
        assert(m =~= e);
    } else {
        let w = m.off_size as nat;
        let cnt = seq![(m.count / 256) as u8, (m.count % 256) as u8];
        let a = cnt + seq![m.off_size];
        let ob = offsets_bytes(m.offsets, w);
        assert(sb == a + ob + m.data);
        lemma_offsets_bytes_len(m.offsets, w);
        assert(sb.len() == 3 + (count + 1) * w + m.data.len());
        assert(b[0] == sb[0] && b[1] == sb[1] && b[2] == sb[2]);
        assert((b[0] as int) * 256 + b[1] == count);
        assert(b[2] == m.off_size);
        assert(3 + (count + 1) * w <= b.len());
        let offs = parsed_offsets(b, (count + 1) as nat, w);
        assert forall|i: int| 0 <= i <= count implies offs[i] == m.offsets[i] by {
            assert(0 <= i * w && i * w + w == (i + 1) * w && (i + 1) * w <= (count + 1) * w)
                by (nonlinear_arith)
                requires
                    0 <= i <= count,
                    w >= 1,
            ;
            assert(b.subrange(3 + i * w, 3 + (i + 1) * w) =~= sb.subrange(
                3 + i * w,
                3 + (i + 1) * w,
            ));
            lemma_serialized_offset_at(m, i);
        }
        assert(offs =~= m.offsets);
        assert(nondecreasing_from_one(offs));
        let dstart = 3 + (count + 1) * w;
        let dlen = offs[count] - 1;
        assert(dlen == m.data.len());
        assert(dstart + dlen <= b.len());
        lemma_subrange_of_concat_last(a, ob, m.data);
        assert(sb.subrange(dstart, dstart + dlen) =~= m.data);
        assert(b.subrange(dstart, dstart + dlen) =~= sb.subrange(dstart, dstart + dlen));
        let parsed = spec_parse(b)->Ok_0.0;
        assert(parsed =~= m);
    }
}

/// Re-encoding the offsets read from a byte region reproduces the region.
#[verifier::rlimit(100)]
proof fn lemma_offsets_bytes_of_parsed(b: Seq<u8>, noffs: nat, w: nat)
    requires
        1 <= w <= 4,
        b.len() >= 3 + noffs * w,
    ensures
        offsets_bytes(parsed_offsets(b, noffs, w), w) =~= b.subrange(3, 3 + (noffs * w) as int),
    decreases noffs,
{
    if noffs == 0 {
        assert(0 * w == 0) by (nonlinear_arith);
    } else {
        let offs = parsed_offsets(b, noffs, w);
        assert(1 * w == w && 0 * w == 0 && w <= noffs * w) by (nonlinear_arith)
            requires
                noffs >= 1,
                w >= 1,
        ;
        let s0 = b.subrange(3, 3 + w as int);
        assert(offs[0] == be_value(s0) as u32);
        lemma_be_value_bounds(s0);
        lemma_pow256_increases(w, 4);
        lemma_pow256_values();
        assert(offs[0] as int == be_value(s0));
        crate::offsets::lemma_be_bytes_of_value(s0);
        assert(be_bytes(offs[0] as int, w) =~= s0);
        let b2 = b.subrange(0, 3) + b.skip(3 + w as int);
        assert(b2.len() == b.len() - w);
        assert(b.len() - w >= 3 + (noffs - 1) * w) by (nonlinear_arith)
            requires
                b.len() >= 3 + noffs * w,
                w >= 1,
                noffs >= 1,
        ;
        lemma_offsets_bytes_of_parsed(b2, (noffs - 1) as nat, w);
        let rest = parsed_offsets(b2, (noffs - 1) as nat, w);
        assert forall|i: int| 0 <= i < noffs - 1 implies offs.skip(1)[i] == rest[i] by {
            assert(0 <= i * w && (i + 1) * w == i * w + w && (i + 2) * w == (i + 1) * w + w && (i
                + 2) * w <= noffs * w) by (nonlinear_arith)
                requires
                    0 <= i < noffs - 1,
                    w >= 1,
            ;
            assert(b2.subrange(3 + i * w, 3 + (i + 1) * w) =~= b.subrange(
                3 + (i + 1) * w,
                3 + (i + 2) * w,
            ));
            assert(offs.skip(1)[i] == offs[i + 1]);
        }
        assert(offs.skip(1) =~= rest);
        assert(offsets_bytes(offs, w) == be_bytes(offs[0] as int, w) + offsets_bytes(
            offs.skip(1),
            w,
        ));
        assert(offsets_bytes(rest, w) =~= b2.subrange(3, 3 + ((noffs - 1) as nat * w) as int));
        assert(((noffs - 1) as nat * w) as int == (noffs * w) as int - w) by (nonlinear_arith)
            requires
                noffs >= 1,
                w >= 1,
        ;
        assert(b2.subrange(3, 3 + ((noffs - 1) as nat * w) as int) =~= b.subrange(
            3 + w as int,
            3 + (noffs * w) as int,
        ));
        lemma_offsets_bytes_len(offs.skip(1), w);
        assert(offsets_bytes(offs, w) =~= b.subrange(3, 3 + (noffs * w) as int));
    }
}

/// Law: byte fidelity. Serializing the INDEX a byte stream parses to
/// reproduces exactly the consumed bytes, unchanged.
#[verifier::rlimit(100)]
pub proof fn lemma_parse_serialize_exact(b: Seq<u8>)
    requires
        spec_parse(b) is Ok,
    ensures
        spec_serialize(spec_parse(b)->Ok_0.0) =~= b.take(spec_parse(b)->Ok_0.1),
{
    let (m, n) = spec_parse(b)->Ok_0;
    let count = (b[0] as int) * 256 + b[1];
    assert(count / 256 == b[0] && count % 256 == b[1]) by (nonlinear_arith)
        requires
            count == (b[0] as int) * 256 + b[1],
            0 <= b[0] < 256,
            0 <= b[1] < 256,
    ;
    if count == 0 {
        assert(b[0] == 0 && b[1] == 0);
        assert(spec_serialize(m) =~= b.take(2));
    } else {
        let w = b[2] as nat;
        let noffs = (count + 1) as nat;
        lemma_offsets_bytes_of_parsed(b, noffs, w);
        let cnt = seq![(m.count / 256) as u8, (m.count % 256) as u8];
        let ob = offsets_bytes(m.offsets, w);
        let dstart = 3 + (count + 1) * w;
        assert(m.offsets == parsed_offsets(b, noffs, w));
        assert((noffs * w) as int == (count + 1) * (w as int)) by (nonlinear_arith)
            requires
                noffs == count + 1,
                count >= 1,
        ;
        assert(ob =~= b.subrange(3, dstart));
        lemma_offsets_bytes_len(m.offsets, w);
        lemma_nondecreasing_le(m.offsets, 0, count);
        assert(spec_serialize(m) == cnt + seq![m.off_size] + ob + m.data);
        assert(m.data == b.subrange(dstart, n));
        assert(m.data.len() == n - dstart);
        assert(spec_serialize(m).len() == n);
        assert(spec_serialize(m) =~= b.take(n));
    }
}

} // verus!
