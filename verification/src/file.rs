//! The self-describing file format and its chunked reader.
//!
//! A file is laid out as `[schema] [data messages]* [footer] [trailer]`,
//! little-endian throughout. The trailer is fixed at twenty bytes: the
//! schema offset, the footer offset, and the four magic bytes. The footer
//! holds the layout tree: a struct layout over per-column chunked layouts
//! whose children point at the per-chunk data messages.
//!
//! The reader is a single-threaded cooperative state machine: it announces
//! the byte ranges it needs, is handed the bytes by its driver, and yields
//! one batch per chunk with take indices, row filter and projection pushed
//! down.

use vstd::prelude::*;

use crate::array::{
    alen, aview, cat_views_from, has_dtype, valid_at, viewable, wf, Array, BoolArray,
    EncodingKind, PrimitiveArray, StructArray, VarBinArray,
};
use crate::compute::{
    and, count_lt, filter, search_sorted, slice, subtract_scalar, take, take_idx_ok,
    SearchSortedSide,
};
use crate::dtype::{bytes_eq, clone_vec_copy, dtype_clone, dtype_matches, DType, Nullability, PType};
use crate::error::{VortexError, VortexResult};
use crate::scalar::Scalar;

verus! {

/// The four magic bytes closing a file.
pub fn magic_bytes() -> (r: Vec<u8>)
    ensures
        r@ == spec_magic(),
{
    let mut v: Vec<u8> = Vec::new();
    v.push(86u8);
    v.push(84u8);
    v.push(88u8);
    v.push(70u8);
    proof {
        assert(v@ =~= spec_magic());
    }
    v
}

/// `b"VTXF"`.
pub open spec fn spec_magic() -> Seq<u8> {
    seq![86u8, 84u8, 88u8, 70u8]
}

/// The fixed size of the trailer: two offsets and the magic.
pub const FOOTER_TRAILER_SIZE: usize = 20;

/// A byte range within the file.
#[derive(Clone, Copy, PartialEq, Eq, Structural, Debug)]
pub struct ByteRange {
    pub begin: u64,
    pub end: u64,
}

impl ByteRange {
    pub open spec fn spec_size(self) -> int {
        self.end - self.begin
    }

    pub fn size(&self) -> (r: u64)
        requires
            self.begin <= self.end,
        ensures
            r == self.spec_size(),
    {
        self.end - self.begin
    }
}

/// The persisted layout tree.
pub enum Layout {
    Flat(ByteRange, EncodingKind),
    Chunked(Vec<Layout>),
    Struct(Vec<Layout>),
}

/// Appends a `u64` in little-endian order.
pub fn push_u64(out: &mut Vec<u8>, v: u64)
    ensures
        final(out)@ == old(out)@ + vstd::bytes::spec_u64_to_le_bytes(v),
{
    let bs = vstd::bytes::u64_to_le_bytes(v);
    let mut k: usize = 0;
    proof {
        vstd::bytes::lemma_auto_spec_u64_to_from_le_bytes();
    }
    while k < 8
        invariant
            bs@.len() == 8,
            k <= 8,
            out@ == old(out)@ + bs@.subrange(0, k as int),
        decreases 8 - k,
    {
        out.push(bs[k]);
        k = k + 1;
        proof {
            assert(out@ =~= old(out)@ + bs@.subrange(0, k as int));
        }
    }
    proof {
        assert(bs@.subrange(0, 8) =~= bs@);
    }
}

/// Reads the `u64` stored in little-endian order at `pos`.
pub fn read_u64(bytes: &Vec<u8>, pos: usize) -> (r: u64)
    requires
        pos + 8 <= bytes@.len(),
    ensures
        r == vstd::bytes::spec_u64_from_le_bytes(bytes@.subrange(pos as int, pos as int + 8)),
{
    let blen = bytes.len();
    let mut window: Vec<u8> = Vec::new();
    let mut k: usize = 0;
    while k < 8
        invariant
            blen == bytes@.len(),
            pos + 8 <= blen,
            k <= 8,
            window@ == bytes@.subrange(pos as int, pos as int + k as int),
        decreases 8 - k,
    {
        window.push(bytes[pos + k]);
        k = k + 1;
        proof {
            assert(window@ =~= bytes@.subrange(pos as int, pos as int + k as int));
        }
    }
    vstd::bytes::u64_from_le_bytes(window.as_slice())
}

/// The trailer of a file whose schema and footer start at the given offsets.
pub open spec fn spec_trailer(schema_offset: u64, footer_offset: u64) -> Seq<u8> {
    vstd::bytes::spec_u64_to_le_bytes(schema_offset) + vstd::bytes::spec_u64_to_le_bytes(
        footer_offset,
    ) + spec_magic()
}

/// Appends the twenty-byte trailer.
pub fn push_trailer(out: &mut Vec<u8>, schema_offset: u64, footer_offset: u64)
    ensures
        final(out)@ == old(out)@ + spec_trailer(schema_offset, footer_offset),
{
    push_u64(out, schema_offset);
    push_u64(out, footer_offset);
    let m = magic_bytes();
    let mut k: usize = 0;
    while k < 4
        invariant
            m@.len() == 4,
            m@ == spec_magic(),
            k <= 4,
            out@ == old(out)@ + vstd::bytes::spec_u64_to_le_bytes(schema_offset)
                + vstd::bytes::spec_u64_to_le_bytes(footer_offset) + m@.subrange(0, k as int),
        decreases 4 - k,
    {
        out.push(m[k]);
        k = k + 1;
        proof {
            assert(out@ =~= old(out)@ + vstd::bytes::spec_u64_to_le_bytes(schema_offset)
                + vstd::bytes::spec_u64_to_le_bytes(footer_offset) + m@.subrange(0, k as int));
        }
    }
    proof {
        assert(m@.subrange(0, 4) =~= m@);
        assert(out@ =~= old(out)@ + spec_trailer(schema_offset, footer_offset));
    }
}

/// The parsed tail of a file: the two trailer offsets, and the suffix of the
/// file the footer and schema were read from.
pub struct Footer {
    pub schema_offset: u64,
    pub footer_offset: u64,
    pub leftovers: Vec<u8>,
    pub leftovers_offset: u64,
}

impl Footer {
    pub open spec fn wf_spec(self) -> bool {
        &&& self.leftovers_offset <= self.schema_offset
        &&& self.schema_offset <= self.footer_offset
        &&& self.footer_offset + FOOTER_TRAILER_SIZE <= self.leftovers_offset
            + self.leftovers@.len()
    }

    /// The footer's position within the tail bytes.
    pub fn leftovers_footer_offset(&self) -> (r: usize)
        requires
            self.wf_spec(),
        ensures
            r as int == self.footer_offset - self.leftovers_offset,
    {
        let llen = self.leftovers.len();
        proof {
            assert(self.footer_offset - self.leftovers_offset <= llen);
        }
        (self.footer_offset - self.leftovers_offset) as usize
    }

    /// The schema's position within the tail bytes.
    pub fn leftovers_schema_offset(&self) -> (r: usize)
        requires
            self.wf_spec(),
        ensures
            r as int == self.schema_offset - self.leftovers_offset,
    {
        let llen = self.leftovers.len();
        proof {
            assert(self.schema_offset - self.leftovers_offset <= llen);
        }
        (self.schema_offset - self.leftovers_offset) as usize
    }

    /// Parses the layout tree between the footer offset and the trailer:
    /// the result is the layout whose serialized form sits at that offset.
    pub fn layout(&self) -> (r: VortexResult<Layout>)
        requires
            self.wf_spec(),
        ensures
            match r {
                Result::Ok(l) => {
                    &&& layout_wf(l)
                    &&& self.leftovers@.subrange(
                        self.footer_offset - self.leftovers_offset,
                        self.footer_offset - self.leftovers_offset + spec_layout_bytes(l).len(),
                    ) == spec_layout_bytes(l)
                },
                Result::Err(VortexError::InvalidSerde) => true,
                Result::Err(_) => false,
            },
    {
        let llen = self.leftovers.len();
        proof {
            assert(llen >= FOOTER_TRAILER_SIZE);
        }
        let start = self.leftovers_footer_offset();
        let end = llen - FOOTER_TRAILER_SIZE;
        if start > end {
            return Result::Err(VortexError::InvalidSerde);
        }
        let (l, used) = decode_layout(&self.leftovers, start, end, 16)?;
        proof {
            assert(self.leftovers@.subrange(
                start as int,
                start as int + spec_layout_bytes(l).len(),
            ) =~= self.leftovers@.subrange(start as int, used as int));
        }
        Result::Ok(l)
    }

    /// Parses the logical type at the schema offset: the result is the type
    /// whose serialized form sits there.
    pub fn dtype(&self) -> (r: VortexResult<DType>)
        requires
            self.wf_spec(),
        ensures
            match r {
                Result::Ok(d) => self.leftovers@.subrange(
                    self.schema_offset - self.leftovers_offset,
                    self.schema_offset - self.leftovers_offset + spec_dtype_bytes(d).len(),
                ) == spec_dtype_bytes(d),
                Result::Err(VortexError::InvalidSerde) => true,
                Result::Err(_) => false,
            },
    {
        let llen = self.leftovers.len();
        proof {
            assert(llen >= FOOTER_TRAILER_SIZE);
        }
        let start = self.leftovers_schema_offset();
        let end = self.leftovers_footer_offset();
        if start > end || end > llen {
            return Result::Err(VortexError::InvalidSerde);
        }
        let (d, used) = decode_dtype(&self.leftovers, start, end, 16)?;
        proof {
            assert(self.leftovers@.subrange(
                start as int,
                start as int + spec_dtype_bytes(d).len(),
            ) =~= self.leftovers@.subrange(start as int, used as int));
        }
        Result::Ok(d)
    }
}

/// Every flat leaf of a well-formed layout has an ordered byte range.
pub open spec fn layout_wf(l: Layout) -> bool
    decreases l,
{
    match l {
        Layout::Flat(rng, _) => rng.begin <= rng.end,
        Layout::Chunked(cs) => forall|i: int|
            0 <= i < cs@.len() ==> layout_wf(#[trigger] cs@[i]),
        Layout::Struct(cs) => forall|i: int|
            0 <= i < cs@.len() ==> layout_wf(#[trigger] cs@[i]),
    }
}


/// The stable one-byte tag of an encoding, at the spec level.
pub open spec fn spec_encoding_tag(k: EncodingKind) -> u8 {
    match k {
        EncodingKind::Primitive => 1u8,
        EncodingKind::Bool => 2u8,
        EncodingKind::VarBin => 3u8,
        EncodingKind::Struct => 4u8,
        EncodingKind::Chunked => 5u8,
        EncodingKind::Constant => 6u8,
        EncodingKind::Sparse => 7u8,
        EncodingKind::Alp => 8u8,
        EncodingKind::RoaringBool => 9u8,
    }
}

/// The exact bytes of one serialized layout tree.
pub open spec fn spec_layout_bytes(l: Layout) -> Seq<u8>
    decreases l, 0nat,
{
    match l {
        Layout::Flat(rng, k) => seq![1u8] + u64le(rng.begin) + u64le(rng.end) + seq![
            spec_encoding_tag(k),
        ],
        Layout::Chunked(cs) => seq![2u8] + u64le(cs@.len() as u64) + spec_layouts_bytes(
            cs@,
            cs@.len() as int,
        ),
        Layout::Struct(cs) => seq![3u8] + u64le(cs@.len() as u64) + spec_layouts_bytes(
            cs@,
            cs@.len() as int,
        ),
    }
}

/// The concatenated bytes of `s[..i]`.
pub open spec fn spec_layouts_bytes(s: Seq<Layout>, i: int) -> Seq<u8>
    decreases s, i,
{
    if i <= 0 || i > s.len() {
        Seq::empty()
    } else {
        spec_layouts_bytes(s, i - 1) + spec_layout_bytes(s[i - 1])
    }
}

/// The exact bytes of one serialized logical type.
pub open spec fn spec_dtype_bytes(d: DType) -> Seq<u8>
    decreases d, 0nat,
{
    match d {
        DType::Null => seq![0u8],
        DType::Bool(n) => seq![1u8, spec_null_byte(n)],
        DType::Int(w, s, n) => seq![
            2u8,
            spec_int_width_byte(w),
            (if s is Signed {
                1u8
            } else {
                0u8
            }),
            spec_null_byte(n),
        ],
        DType::Float(w, n) => seq![3u8, spec_float_width_byte(w), spec_null_byte(n)],
        DType::Utf8(n) => seq![4u8, spec_null_byte(n)],
        DType::Binary(n) => seq![5u8, spec_null_byte(n)],
        DType::Struct(names, types, n) => seq![6u8, spec_null_byte(n)] + u64le(
            names@.len() as u64,
        ) + spec_names_bytes(names@, names@.len() as int) + u64le(types@.len() as u64)
            + spec_dtypes_bytes(types@, types@.len() as int),
        DType::List(e, n) => seq![7u8, spec_null_byte(n)] + spec_dtype_bytes(*e),
    }
}

pub open spec fn spec_null_byte(n: Nullability) -> u8 {
    if n is Nullable {
        1u8
    } else {
        0u8
    }
}

pub open spec fn spec_int_width_byte(w: crate::dtype::IntWidth) -> u8 {
    match w {
        crate::dtype::IntWidth::W8 => 8u8,
        crate::dtype::IntWidth::W16 => 16u8,
        crate::dtype::IntWidth::W32 => 32u8,
        crate::dtype::IntWidth::W64 => 64u8,
    }
}

pub open spec fn spec_float_width_byte(w: crate::dtype::FloatWidth) -> u8 {
    match w {
        crate::dtype::FloatWidth::W16 => 16u8,
        crate::dtype::FloatWidth::W32 => 32u8,
        crate::dtype::FloatWidth::W64 => 64u8,
    }
}

/// The concatenated length-prefixed field names of `s[..i]`.
pub open spec fn spec_names_bytes(s: Seq<Vec<u8>>, i: int) -> Seq<u8>
    decreases i,
{
    if i <= 0 {
        Seq::empty()
    } else {
        spec_names_bytes(s, i - 1) + u64le(s[i - 1]@.len() as u64) + s[i - 1]@
    }
}

/// The concatenated bytes of the field types `s[..i]`.
pub open spec fn spec_dtypes_bytes(s: Seq<DType>, i: int) -> Seq<u8>
    decreases s, i,
{
    if i <= 0 || i > s.len() {
        Seq::empty()
    } else {
        spec_dtypes_bytes(s, i - 1) + spec_dtype_bytes(s[i - 1])
    }
}

/// Serializes a layout tree: exactly [`spec_layout_bytes`] is appended.
#[verifier::loop_isolation(false)]
pub fn encode_layout(l: &Layout, out: &mut Vec<u8>)
    requires
        layout_wf(*l),
    ensures
        final(out)@ == old(out)@ + spec_layout_bytes(*l),
    decreases *l,
{
    let ghost base = out@;
    match l {
        Layout::Flat(rng, kind) => {
            out.push(1u8);
            push_u64(out, rng.begin);
            push_u64(out, rng.end);
            out.push(encoding_tag(*kind));
            proof {
                assert(out@ =~= base + spec_layout_bytes(*l));
            }
        },
        Layout::Chunked(cs) => {
            out.push(2u8);
            push_u64(out, cs.len() as u64);
            let ghost head = out@;
            for i in 0..cs.len()
                invariant
                    out@ == head + spec_layouts_bytes(cs@, i as int),
            {
                proof {
                    assert(decreases_to!(*l => cs@[i as int]));
                    assert(layout_wf(cs@[i as int]));
                }
                encode_layout(&cs[i], out);
            }
            proof {
                assert(out@ =~= base + spec_layout_bytes(*l));
            }
        },
        Layout::Struct(cs) => {
            out.push(3u8);
            push_u64(out, cs.len() as u64);
            let ghost head = out@;
            for i in 0..cs.len()
                invariant
                    out@ == head + spec_layouts_bytes(cs@, i as int),
            {
                proof {
                    assert(decreases_to!(*l => cs@[i as int]));
                    assert(layout_wf(cs@[i as int]));
                }
                encode_layout(&cs[i], out);
            }
            proof {
                assert(out@ =~= base + spec_layout_bytes(*l));
            }
        },
    }
}

/// Stable one-byte tags of the persisted encodings.
pub fn encoding_tag(k: EncodingKind) -> (r: u8)
    ensures
        r == spec_encoding_tag(k),
{
    match k {
        EncodingKind::Primitive => 1,
        EncodingKind::Bool => 2,
        EncodingKind::VarBin => 3,
        EncodingKind::Struct => 4,
        EncodingKind::Chunked => 5,
        EncodingKind::Constant => 6,
        EncodingKind::Sparse => 7,
        EncodingKind::Alp => 8,
        EncodingKind::RoaringBool => 9,
    }
}

pub fn encoding_from_tag(t: u8) -> (r: Option<EncodingKind>)
    ensures
        match r {
            Option::Some(k) => spec_encoding_tag(k) == t,
            Option::None => forall|k: EncodingKind| spec_encoding_tag(k) != t,
        },
{
    match t {
        1u8 => Option::Some(EncodingKind::Primitive),
        2u8 => Option::Some(EncodingKind::Bool),
        3u8 => Option::Some(EncodingKind::VarBin),
        4u8 => Option::Some(EncodingKind::Struct),
        5u8 => Option::Some(EncodingKind::Chunked),
        6u8 => Option::Some(EncodingKind::Constant),
        7u8 => Option::Some(EncodingKind::Sparse),
        8u8 => Option::Some(EncodingKind::Alp),
        9u8 => Option::Some(EncodingKind::RoaringBool),
        _ => Option::None,
    }
}

/// Prefix-equal layout lists serialize to the same bytes.
pub proof fn lemma_layouts_bytes_prefix(s1: Seq<Layout>, s2: Seq<Layout>, i: int)
    requires
        i <= s1.len(),
        i <= s2.len(),
        forall|k: int| 0 <= k < i ==> s1[k] == s2[k],
    ensures
        spec_layouts_bytes(s1, i) == spec_layouts_bytes(s2, i),
    decreases i,
{
    if i > 0 {
        lemma_layouts_bytes_prefix(s1, s2, i - 1);
    }
}

/// Parses one layout from `bytes[pos..end)`; `fuel` bounds the tree depth.
/// On success the consumed bytes are exactly the result's serialized form.
#[verifier::loop_isolation(false)]
#[verifier::rlimit(100)]
#[verifier::spinoff_prover]
pub fn decode_layout(bytes: &Vec<u8>, pos: usize, end: usize, fuel: u8) -> (r: VortexResult<
    (Layout, usize),
>)
    requires
        pos <= end,
        end <= bytes@.len(),
    ensures
        match r {
            Result::Ok((l, used)) => {
                &&& layout_wf(l)
                &&& pos <= used <= end
                &&& bytes@.subrange(pos as int, used as int) == spec_layout_bytes(l)
            },
            Result::Err(VortexError::InvalidSerde) => true,
            Result::Err(_) => false,
        },
    decreases fuel,
{
    proof {
        vstd::bytes::lemma_auto_spec_u64_to_from_le_bytes();
    }
    if fuel == 0 {
        return Result::Err(VortexError::InvalidSerde);
    }
    if pos >= end {
        return Result::Err(VortexError::InvalidSerde);
    }
    let tag = bytes[pos];
    if tag == 1 {
        if end - pos < 18 {
            return Result::Err(VortexError::InvalidSerde);
        }
        let begin = read_u64(bytes, pos + 1);
        let endo = read_u64(bytes, pos + 9);
        if begin > endo {
            return Result::Err(VortexError::InvalidSerde);
        }
        let kt = bytes[pos + 17];
        match encoding_from_tag(kt) {
            Option::Some(k) => {
                let l = Layout::Flat(ByteRange { begin, end: endo }, k);
                proof {
                    assert(bytes@.subrange(pos + 1, pos + 9) =~= bytes@.subrange(
                        pos as int,
                        pos + 18,
                    ).subrange(1, 9));
                    assert(bytes@.subrange(pos + 9, pos + 17) =~= bytes@.subrange(
                        pos as int,
                        pos + 18,
                    ).subrange(9, 17));
                    assert(bytes@.subrange(pos as int, pos + 18) =~= spec_layout_bytes(l));
                }
                Result::Ok((l, pos + 18))
            },
            Option::None => Result::Err(VortexError::InvalidSerde),
        }
    } else if tag == 2 || tag == 3 {
        if end - pos < 9 {
            return Result::Err(VortexError::InvalidSerde);
        }
        let cnt = read_u64(bytes, pos + 1);
        if cnt > (end - (pos + 9)) as u64 {
            return Result::Err(VortexError::InvalidSerde);
        }
        let cnt = cnt as usize;
        let mut children: Vec<Layout> = Vec::new();
        let mut cur = pos + 9;
        for i in 0..cnt
            invariant
                pos + 9 <= cur <= end,
                children@.len() == i,
                forall|j: int| 0 <= j < i ==> layout_wf(#[trigger] children@[j]),
                bytes@.subrange(pos + 9, cur as int) == spec_layouts_bytes(children@, i as int),
        {
            let ghost prev = children@;
            let ghost prev_cur = cur as int;
            match decode_layout(bytes, cur, end, fuel - 1) {
                Result::Ok((child, used)) => {
                    children.push(child);
                    cur = used;
                    proof {
                        lemma_layouts_bytes_prefix(prev, children@, i as int);
                        assert(bytes@.subrange(pos + 9, cur as int) =~= bytes@.subrange(
                            pos + 9,
                            prev_cur,
                        ) + bytes@.subrange(prev_cur, cur as int));
                        assert(bytes@.subrange(pos + 9, cur as int) =~= spec_layouts_bytes(
                            children@,
                            i + 1,
                        ));
                    }
                },
                Result::Err(e) => {
                    return Result::Err(e);
                },
            }
        }
        let l = if tag == 2 {
            Layout::Chunked(children)
        } else {
            Layout::Struct(children)
        };
        proof {
            assert(bytes@.subrange(pos + 1, pos + 9) =~= bytes@.subrange(
                pos as int,
                cur as int,
            ).subrange(1, 9));
            assert(bytes@.subrange(pos as int, cur as int) =~= spec_layout_bytes(l));
        }
        Result::Ok((l, cur))
    } else {
        Result::Err(VortexError::InvalidSerde)
    }
}

/// Serializes a logical type: exactly [`spec_dtype_bytes`] is appended.
#[verifier::loop_isolation(false)]
#[verifier::rlimit(100)]
#[verifier::spinoff_prover]
pub fn encode_dtype(d: &DType, out: &mut Vec<u8>)
    ensures
        final(out)@ == old(out)@ + spec_dtype_bytes(*d),
    decreases *d,
{
    let ghost base = out@;
    match d {
        DType::Struct(names, types, n) => {
            out.push(6u8);
            out.push(null_byte(*n));
            push_u64(out, names.len() as u64);
            push_names(names, out);
            push_u64(out, types.len() as u64);
            let ghost head2 = out@;
            for i in 0..types.len()
                invariant
                    out@ == head2 + spec_dtypes_bytes(types@, i as int),
            {
                proof {
                    assert(decreases_to!(*d => types@[i as int]));
                }
                encode_dtype(&types[i], out);
            }
            proof {
                assert(out@ =~= base + spec_dtype_bytes(*d));
            }
        },
        DType::List(e, n) => {
            out.push(7u8);
            out.push(null_byte(*n));
            encode_dtype(e, out);
            proof {
                assert(out@ =~= base + spec_dtype_bytes(*d));
            }
        },
        _ => {
            encode_simple_dtype(d, out);
        },
    }
}

/// Serializes the fixed-width logical types.
#[verifier::loop_isolation(false)]
#[verifier::rlimit(100)]
#[verifier::spinoff_prover]
pub fn encode_simple_dtype(d: &DType, out: &mut Vec<u8>)
    requires
        !(*d is Struct),
        !(*d is List),
    ensures
        final(out)@ == old(out)@ + spec_dtype_bytes(*d),
{
    let ghost base = out@;
    match d {
        DType::Null => {
            out.push(0u8);
            proof {
                assert(out@ =~= base + spec_dtype_bytes(*d));
            }
        },
        DType::Bool(n) => {
            out.push(1u8);
            out.push(null_byte(*n));
            proof {
                assert(out@ =~= base + spec_dtype_bytes(*d));
            }
        },
        DType::Int(w, s, n) => {
            out.push(2u8);
            out.push(
                match w {
                    crate::dtype::IntWidth::W8 => 8u8,
                    crate::dtype::IntWidth::W16 => 16u8,
                    crate::dtype::IntWidth::W32 => 32u8,
                    crate::dtype::IntWidth::W64 => 64u8,
                },
            );
            out.push(if matches!(s, crate::dtype::Signedness::Signed) {
                1u8
            } else {
                0u8
            });
            out.push(null_byte(*n));
            proof {
                assert(out@ =~= base + spec_dtype_bytes(*d));
            }
        },
        DType::Float(w, n) => {
            out.push(3u8);
            out.push(
                match w {
                    crate::dtype::FloatWidth::W16 => 16u8,
                    crate::dtype::FloatWidth::W32 => 32u8,
                    crate::dtype::FloatWidth::W64 => 64u8,
                },
            );
            out.push(null_byte(*n));
            proof {
                assert(out@ =~= base + spec_dtype_bytes(*d));
            }
        },
        DType::Utf8(n) => {
            out.push(4u8);
            out.push(null_byte(*n));
            proof {
                assert(out@ =~= base + spec_dtype_bytes(*d));
            }
        },
        DType::Binary(n) => {
            out.push(5u8);
            out.push(null_byte(*n));
            proof {
                assert(out@ =~= base + spec_dtype_bytes(*d));
            }
        },
        _ => {
            proof {
                assert(false);
            }
        },
    }
}

/// Appends the length-prefixed field names: exactly [`spec_names_bytes`].
#[verifier::loop_isolation(false)]
pub fn push_names(names: &Vec<Vec<u8>>, out: &mut Vec<u8>)
    ensures
        final(out)@ == old(out)@ + spec_names_bytes(names@, names@.len() as int),
{
    let ghost head = out@;
    for i in 0..names.len()
        invariant
            out@ == head + spec_names_bytes(names@, i as int),
    {
        push_u64(out, names[i].len() as u64);
        let ghost mid = out@;
        let name = &names[i];
        let mut t: usize = 0;
        while t < name.len()
            invariant
                t <= name@.len(),
                out@ == mid + name@.subrange(0, t as int),
            decreases name@.len() - t,
        {
            out.push(name[t]);
            t = t + 1;
            proof {
                assert(out@ =~= mid + name@.subrange(0, t as int));
            }
        }
        proof {
            assert(name@.subrange(0, name@.len() as int) =~= name@);
            assert(out@ =~= head + spec_names_bytes(names@, i + 1));
        }
    }
}

/// The presence byte of a nullability.
pub fn null_byte(n: Nullability) -> (r: u8)
    ensures
        r == spec_null_byte(n),
{
    if matches!(n, Nullability::Nullable) {
        1u8
    } else {
        0u8
    }
}

/// Prefix-equal name lists serialize to the same bytes.
pub proof fn lemma_names_bytes_prefix(s1: Seq<Vec<u8>>, s2: Seq<Vec<u8>>, i: int)
    requires
        i <= s1.len(),
        i <= s2.len(),
        forall|k: int| 0 <= k < i ==> #[trigger] s1[k]@ == s2[k]@,
    ensures
        spec_names_bytes(s1, i) == spec_names_bytes(s2, i),
    decreases i,
{
    if i > 0 {
        lemma_names_bytes_prefix(s1, s2, i - 1);
    }
}

/// Prefix-equal type lists serialize to the same bytes.
pub proof fn lemma_dtypes_bytes_prefix(s1: Seq<DType>, s2: Seq<DType>, i: int)
    requires
        i <= s1.len(),
        i <= s2.len(),
        forall|k: int| 0 <= k < i ==> s1[k] == s2[k],
    ensures
        spec_dtypes_bytes(s1, i) == spec_dtypes_bytes(s2, i),
    decreases i,
{
    if i > 0 {
        lemma_dtypes_bytes_prefix(s1, s2, i - 1);
    }
}

/// Parses one logical type from `bytes[pos..end)`. On success the consumed
/// bytes are exactly the result's serialized form.
#[verifier::loop_isolation(false)]
#[verifier::rlimit(100)]
#[verifier::spinoff_prover]
pub fn decode_dtype(bytes: &Vec<u8>, pos: usize, end: usize, fuel: u8) -> (r: VortexResult<
    (DType, usize),
>)
    requires
        pos <= end,
        end <= bytes@.len(),
    ensures
        match r {
            Result::Ok((d, used)) => {
                &&& pos <= used <= end
                &&& bytes@.subrange(pos as int, used as int) == spec_dtype_bytes(d)
            },
            Result::Err(VortexError::InvalidSerde) => true,
            Result::Err(_) => false,
        },
    decreases fuel, 1nat,
{
    proof {
        vstd::bytes::lemma_auto_spec_u64_to_from_le_bytes();
    }
    if fuel == 0 || pos >= end {
        return Result::Err(VortexError::InvalidSerde);
    }
    let tag = bytes[pos];
    if tag == 0 {
        proof {
            assert(bytes@.subrange(pos as int, pos + 1) =~= spec_dtype_bytes(DType::Null));
        }
        return Result::Ok((DType::Null, pos + 1));
    }
    if end - pos < 2 {
        return Result::Err(VortexError::InvalidSerde);
    }
    let nb = bytes[pos + 1];
    if tag == 1 || tag == 4 || tag == 5 {
        if nb > 1 {
            return Result::Err(VortexError::InvalidSerde);
        }
        let n = if nb == 1 {
            Nullability::Nullable
        } else {
            Nullability::NonNullable
        };
        let d = if tag == 1 {
            DType::Bool(n)
        } else if tag == 4 {
            DType::Utf8(n)
        } else {
            DType::Binary(n)
        };
        proof {
            assert(bytes@.subrange(pos as int, pos + 2) =~= spec_dtype_bytes(d));
        }
        return Result::Ok((d, pos + 2));
    }
    if tag == 2 {
        if end - pos < 4 {
            return Result::Err(VortexError::InvalidSerde);
        }
        let w = match bytes[pos + 1] {
            8u8 => crate::dtype::IntWidth::W8,
            16u8 => crate::dtype::IntWidth::W16,
            32u8 => crate::dtype::IntWidth::W32,
            64u8 => crate::dtype::IntWidth::W64,
            _ => {
                return Result::Err(VortexError::InvalidSerde);
            },
        };
        let sb = bytes[pos + 2];
        let n3 = bytes[pos + 3];
        if sb > 1 || n3 > 1 {
            return Result::Err(VortexError::InvalidSerde);
        }
        let s = if sb == 1 {
            crate::dtype::Signedness::Signed
        } else {
            crate::dtype::Signedness::Unsigned
        };
        let n = if n3 == 1 {
            Nullability::Nullable
        } else {
            Nullability::NonNullable
        };
        let d = DType::Int(w, s, n);
        proof {
            assert(bytes@.subrange(pos as int, pos + 4) =~= spec_dtype_bytes(d));
        }
        return Result::Ok((d, pos + 4));
    }
    if tag == 3 {
        if end - pos < 3 {
            return Result::Err(VortexError::InvalidSerde);
        }
        let w = match bytes[pos + 1] {
            16u8 => crate::dtype::FloatWidth::W16,
            32u8 => crate::dtype::FloatWidth::W32,
            64u8 => crate::dtype::FloatWidth::W64,
            _ => {
                return Result::Err(VortexError::InvalidSerde);
            },
        };
        let n2 = bytes[pos + 2];
        if n2 > 1 {
            return Result::Err(VortexError::InvalidSerde);
        }
        let n = if n2 == 1 {
            Nullability::Nullable
        } else {
            Nullability::NonNullable
        };
        let d = DType::Float(w, n);
        proof {
            assert(bytes@.subrange(pos as int, pos + 3) =~= spec_dtype_bytes(d));
        }
        return Result::Ok((d, pos + 3));
    }
    if tag == 6 {
        return decode_struct_dtype(bytes, pos, end, fuel);
    }
    if tag == 7 {
        if nb > 1 {
            return Result::Err(VortexError::InvalidSerde);
        }
        let n = if nb == 1 {
            Nullability::Nullable
        } else {
            Nullability::NonNullable
        };
        match decode_dtype(bytes, pos + 2, end, fuel - 1) {
            Result::Ok((child, used)) => {
                let d = DType::List(Box::new(child), n);
                proof {
                    assert(bytes@.subrange(pos as int, used as int) =~= spec_dtype_bytes(d));
                }
                return Result::Ok((d, used));
            },
            Result::Err(e) => {
                return Result::Err(e);
            },
        }
    }
    Result::Err(VortexError::InvalidSerde)
}

/// Parses a struct logical type (names, then field types). On success the
/// consumed bytes are exactly the result's serialized form.
#[verifier::loop_isolation(false)]
#[verifier::rlimit(100)]
#[verifier::spinoff_prover]
fn decode_struct_dtype(bytes: &Vec<u8>, pos: usize, end: usize, fuel: u8) -> (r: VortexResult<
    (DType, usize),
>)
    requires
        pos < end,
        end <= bytes@.len(),
        bytes@[pos as int] == 6u8,
        pos + 2 <= end,
        fuel >= 1,
    ensures
        match r {
            Result::Ok((d, used)) => {
                &&& pos <= used <= end
                &&& bytes@.subrange(pos as int, used as int) == spec_dtype_bytes(d)
            },
            Result::Err(VortexError::InvalidSerde) => true,
            Result::Err(_) => false,
        },
    decreases fuel, 0nat,
{
    proof {
        vstd::bytes::lemma_auto_spec_u64_to_from_le_bytes();
    }
    let nb = bytes[pos + 1];
    {
        if nb > 1 {
            return Result::Err(VortexError::InvalidSerde);
        }
        let n = if nb == 1 {
            Nullability::Nullable
        } else {
            Nullability::NonNullable
        };
        if end - pos < 10 {
            return Result::Err(VortexError::InvalidSerde);
        }
        let name_cnt = read_u64(bytes, pos + 2);
        if name_cnt > (end - (pos + 10)) as u64 {
            return Result::Err(VortexError::InvalidSerde);
        }
        let name_cnt = name_cnt as usize;
        let mut cur = pos + 10;
        let mut names: Vec<Vec<u8>> = Vec::new();
        for i in 0..name_cnt
            invariant
                pos + 10 <= cur <= end,
                end <= bytes@.len(),
                names@.len() == i,
                bytes@.subrange(pos + 10, cur as int) == spec_names_bytes(names@, i as int),
        {
            if end - cur < 8 {
                return Result::Err(VortexError::InvalidSerde);
            }
            let nl = read_u64(bytes, cur);
            if nl > (end - (cur + 8)) as u64 {
                return Result::Err(VortexError::InvalidSerde);
            }
            let nl = nl as usize;
            let mut name: Vec<u8> = Vec::new();
            let mut t: usize = 0;
            while t < nl
                invariant
                    cur + 8 + nl <= end,
                    end <= bytes@.len(),
                    t <= nl,
                    name@ == bytes@.subrange(cur + 8, cur + 8 + t as int),
                decreases nl - t,
            {
                name.push(bytes[cur + 8 + t]);
                t = t + 1;
                proof {
                    assert(name@ =~= bytes@.subrange(cur + 8, cur + 8 + t as int));
                }
            }
            let ghost prev = names@;
            let ghost prev_cur = cur as int;
            names.push(name);
            cur = cur + 8 + nl;
            proof {
                lemma_names_bytes_prefix(prev, names@, i as int);
                assert(bytes@.subrange(prev_cur, prev_cur + 8) =~= u64le(nl as u64));
                assert(bytes@.subrange(pos + 10, cur as int) =~= bytes@.subrange(
                    pos + 10,
                    prev_cur,
                ) + bytes@.subrange(prev_cur, prev_cur + 8) + bytes@.subrange(
                    prev_cur + 8,
                    cur as int,
                ));
                assert(bytes@.subrange(pos + 10, cur as int) =~= spec_names_bytes(names@, i + 1));
            }
        }
        if end - cur < 8 {
            return Result::Err(VortexError::InvalidSerde);
        }
        let type_cnt = read_u64(bytes, cur);
        if type_cnt > (end - (cur + 8)) as u64 {
            return Result::Err(VortexError::InvalidSerde);
        }
        let type_cnt = type_cnt as usize;
        let mut cur2 = cur + 8;
        let mut types: Vec<DType> = Vec::new();
        for i in 0..type_cnt
            invariant
                cur + 8 <= cur2 <= end,
                end <= bytes@.len(),
                types@.len() == i,
                bytes@.subrange(cur + 8, cur2 as int) == spec_dtypes_bytes(types@, i as int),
        {
            let ghost prev = types@;
            let ghost prev_cur = cur2 as int;
            match decode_dtype(bytes, cur2, end, fuel - 1) {
                Result::Ok((child, used)) => {
                    types.push(child);
                    cur2 = used;
                    proof {
                        lemma_dtypes_bytes_prefix(prev, types@, i as int);
                        assert(bytes@.subrange(cur + 8, cur2 as int) =~= bytes@.subrange(
                            cur + 8,
                            prev_cur,
                        ) + bytes@.subrange(prev_cur, cur2 as int));
                        assert(bytes@.subrange(cur + 8, cur2 as int) =~= spec_dtypes_bytes(
                            types@,
                            i + 1,
                        ));
                    }
                },
                Result::Err(e) => {
                    return Result::Err(e);
                },
            }
        }
        let d = DType::Struct(names, types, n);
        proof {
            assert(bytes@.subrange(pos + 2, pos + 10) =~= u64le(name_cnt as u64));
            assert(bytes@.subrange(cur as int, cur + 8) =~= u64le(type_cnt as u64));
            assert(bytes@.subrange(pos as int, cur2 as int) =~= spec_dtype_bytes(d));
        }
        return Result::Ok((d, cur2));
    }
    Result::Err(VortexError::InvalidSerde)
}


/// The little-endian bytes of one `u64`.
pub open spec fn u64le(v: u64) -> Seq<u8> {
    vstd::bytes::spec_u64_to_le_bytes(v)
}

/// The concatenated little-endian bytes of `vals[..i]`.
pub open spec fn spec_u64s_bytes(vals: Seq<u64>, i: int) -> Seq<u8>
    decreases i,
{
    if i <= 0 {
        Seq::empty()
    } else {
        spec_u64s_bytes(vals, i - 1) + u64le(vals[i - 1])
    }
}

/// One byte per boolean of `vals[..i]`: one for true, zero for false.
pub open spec fn spec_bools_bytes(vals: Seq<bool>, i: int) -> Seq<u8>
    decreases i,
{
    if i <= 0 {
        Seq::empty()
    } else {
        spec_bools_bytes(vals, i - 1).push(
            if vals[i - 1] {
                1u8
            } else {
                0u8
            },
        )
    }
}

/// The concatenated little-endian bytes of `offsets[..i]`, widened to `u64`.
pub open spec fn spec_offsets_bytes(offsets: Seq<usize>, i: int) -> Seq<u8>
    decreases i,
{
    if i <= 0 {
        Seq::empty()
    } else {
        spec_offsets_bytes(offsets, i - 1) + u64le(offsets[i - 1] as u64)
    }
}

/// The serialized form of an optional validity mask: a presence byte, then
/// the mask length and its bytes.
pub open spec fn spec_validity_bytes(v: Option<Vec<bool>>) -> Seq<u8> {
    match v {
        Option::None => seq![0u8],
        Option::Some(m) => seq![1u8] + u64le(m@.len() as u64) + spec_bools_bytes(
            m@,
            m@.len() as int,
        ),
    }
}

/// The stable one-byte tag of a physical type, at the spec level.
pub open spec fn spec_ptype_tag(p: PType) -> u8 {
    match p {
        PType::I8 => 1u8,
        PType::I16 => 2u8,
        PType::I32 => 3u8,
        PType::I64 => 4u8,
        PType::U8 => 5u8,
        PType::U16 => 6u8,
        PType::U32 => 7u8,
        PType::U64 => 8u8,
        PType::F16 => 9u8,
        PType::F32 => 10u8,
        PType::F64 => 11u8,
    }
}

/// Whether this array persists as a data message: the three ground
/// encodings and the bitmap encoding.
pub open spec fn persistable(a: Array) -> bool {
    a is Primitive || a is Bool || a is VarBin || a is RoaringBool
}

/// The exact bytes of one data message.
pub open spec fn spec_array_bytes(a: Array) -> Seq<u8> {
    match a {
        Array::Primitive(p) => seq![1u8, spec_ptype_tag(p.ptype)] + u64le(p.values@.len() as u64)
            + spec_u64s_bytes(p.values@, p.values@.len() as int) + spec_validity_bytes(p.validity),
        Array::Bool(b) => seq![2u8] + u64le(b.values@.len() as u64) + spec_bools_bytes(
            b.values@,
            b.values@.len() as int,
        ) + spec_validity_bytes(b.validity),
        Array::VarBin(v) => seq![3u8, if v.is_utf8 { 1u8 } else { 0u8 }] + u64le(
            v.offsets@.len() as u64,
        ) + spec_offsets_bytes(v.offsets@, v.offsets@.len() as int) + u64le(v.bytes@.len() as u64)
            + v.bytes@ + spec_validity_bytes(v.validity),
        Array::RoaringBool(rb) => seq![9u8] + u64le(rb.length as u64) + u64le(
            crate::bitmap::bitmap_bytes(rb.bitmap).len() as u64,
        ) + crate::bitmap::bitmap_bytes(rb.bitmap),
        _ => Seq::empty(),
    }
}

/// Serializes one array as a data message: exactly
/// [`spec_array_bytes`] of the value is appended. The ground encodings and
/// the bitmap encoding persist; everything else is compressed or flattened
/// before writing, and leaves the buffer untouched here.
#[verifier::loop_isolation(false)]
#[verifier::rlimit(100)]
#[verifier::spinoff_prover]
pub fn encode_array(a: &Array, out: &mut Vec<u8>) -> (r: VortexResult<()>)
    requires
        wf(*a),
    ensures
        match r {
            Result::Ok(_) => persistable(*a) && final(out)@ == old(out)@ + spec_array_bytes(*a),
            Result::Err(VortexError::NotImplemented) => !persistable(*a) && final(out)@ == old(
                out,
            )@,
            Result::Err(_) => false,
        },
{
    let ghost base = out@;
    match a {
        Array::Primitive(p) => {
            out.push(1u8);
            out.push(ptype_tag(p.ptype));
            push_u64(out, p.values.len() as u64);
            let ghost head = out@;
            for i in 0..p.values.len()
                invariant
                    out@ == head + spec_u64s_bytes(p.values@, i as int),
            {
                push_u64(out, p.values[i]);
            }
            push_validity(&p.validity, out);
            proof {
                assert(out@ =~= base + spec_array_bytes(*a));
            }
            Result::Ok(())
        },
        Array::Bool(b) => {
            out.push(2u8);
            push_u64(out, b.values.len() as u64);
            let ghost head = out@;
            for i in 0..b.values.len()
                invariant
                    out@ == head + spec_bools_bytes(b.values@, i as int),
            {
                out.push(if b.values[i] {
                    1u8
                } else {
                    0u8
                });
                proof {
                    assert(out@ =~= head + spec_bools_bytes(b.values@, i + 1));
                }
            }
            push_validity(&b.validity, out);
            proof {
                assert(out@ =~= base + spec_array_bytes(*a));
            }
            Result::Ok(())
        },
        Array::VarBin(v) => {
            out.push(3u8);
            out.push(if v.is_utf8 {
                1u8
            } else {
                0u8
            });
            push_u64(out, v.offsets.len() as u64);
            let ghost head = out@;
            for i in 0..v.offsets.len()
                invariant
                    out@ == head + spec_offsets_bytes(v.offsets@, i as int),
            {
                push_u64(out, v.offsets[i] as u64);
            }
            push_u64(out, v.bytes.len() as u64);
            let ghost head2 = out@;
            for i in 0..v.bytes.len()
                invariant
                    out@ == head2 + v.bytes@.subrange(0, i as int),
            {
                out.push(v.bytes[i]);
                proof {
                    assert(out@ =~= head2 + v.bytes@.subrange(0, i + 1));
                }
            }
            proof {
                assert(v.bytes@.subrange(0, v.bytes@.len() as int) =~= v.bytes@);
            }
            push_validity(&v.validity, out);
            proof {
                assert(out@ =~= base + spec_array_bytes(*a));
            }
            Result::Ok(())
        },
        Array::RoaringBool(rb) => {
            out.push(9u8);
            push_u64(out, rb.length as u64);
            let bb = crate::bitmap::bitmap_serialize(&rb.bitmap);
            push_u64(out, bb.len() as u64);
            let ghost head = out@;
            for i in 0..bb.len()
                invariant
                    out@ == head + bb@.subrange(0, i as int),
            {
                out.push(bb[i]);
                proof {
                    assert(out@ =~= head + bb@.subrange(0, i + 1));
                }
            }
            proof {
                assert(bb@.subrange(0, bb@.len() as int) =~= bb@);
                assert(out@ =~= base + spec_array_bytes(*a));
            }
            Result::Ok(())
        },
        _ => Result::Err(VortexError::NotImplemented),
    }
}

/// One-byte tags of the physical types.
pub fn ptype_tag(p: PType) -> (r: u8)
    ensures
        r == spec_ptype_tag(p),
{
    match p {
        PType::I8 => 1,
        PType::I16 => 2,
        PType::I32 => 3,
        PType::I64 => 4,
        PType::U8 => 5,
        PType::U16 => 6,
        PType::U32 => 7,
        PType::U64 => 8,
        PType::F16 => 9,
        PType::F32 => 10,
        PType::F64 => 11,
    }
}

pub fn ptype_from_tag(t: u8) -> (r: Option<PType>)
    ensures
        match r {
            Option::Some(p) => spec_ptype_tag(p) == t,
            Option::None => forall|p: PType| spec_ptype_tag(p) != t,
        },
{
    match t {
        1u8 => Option::Some(PType::I8),
        2u8 => Option::Some(PType::I16),
        3u8 => Option::Some(PType::I32),
        4u8 => Option::Some(PType::I64),
        5u8 => Option::Some(PType::U8),
        6u8 => Option::Some(PType::U16),
        7u8 => Option::Some(PType::U32),
        8u8 => Option::Some(PType::U64),
        9u8 => Option::Some(PType::F16),
        10u8 => Option::Some(PType::F32),
        11u8 => Option::Some(PType::F64),
        _ => Option::None,
    }
}

/// Appends an optional validity mask: exactly [`spec_validity_bytes`].
#[verifier::loop_isolation(false)]
pub fn push_validity(v: &Option<Vec<bool>>, out: &mut Vec<u8>)
    ensures
        final(out)@ == old(out)@ + spec_validity_bytes(*v),
{
    let ghost base = out@;
    match v {
        Option::Some(m) => {
            out.push(1u8);
            push_u64(out, m.len() as u64);
            let ghost head = out@;
            for i in 0..m.len()
                invariant
                    out@ == head + spec_bools_bytes(m@, i as int),
            {
                out.push(if m[i] {
                    1u8
                } else {
                    0u8
                });
                proof {
                    assert(out@ =~= head + spec_bools_bytes(m@, i + 1));
                }
            }
            proof {
                assert(out@ =~= base + spec_validity_bytes(*v));
            }
        },
        Option::None => {
            out.push(0u8);
            proof {
                assert(out@ =~= base + spec_validity_bytes(*v));
            }
        },
    }
}

/// The length of one serialized `u64` list.
pub proof fn lemma_u64s_bytes_props(v: Seq<u64>, i: int)
    requires
        0 <= i,
    ensures
        spec_u64s_bytes(v, i).len() == 8 * i,
        forall|k: int|
            0 <= k < i ==> #[trigger] spec_u64s_bytes(v, i).subrange(8 * k, 8 * k + 8) == u64le(
                v[k],
            ),
    decreases i,
{
    vstd::bytes::lemma_auto_spec_u64_to_from_le_bytes();
    if i > 0 {
        lemma_u64s_bytes_props(v, i - 1);
        assert forall|k: int|
            0 <= k < i implies #[trigger] spec_u64s_bytes(v, i).subrange(8 * k, 8 * k + 8)
            == u64le(v[k]) by {
            if k < i - 1 {
                assert(spec_u64s_bytes(v, i).subrange(8 * k, 8 * k + 8) =~= spec_u64s_bytes(
                    v,
                    i - 1,
                ).subrange(8 * k, 8 * k + 8));
            } else {
                assert(spec_u64s_bytes(v, i).subrange(8 * k, 8 * k + 8) =~= u64le(v[k]));
            }
        }
    }
}

/// The shape of one serialized boolean list: one byte per element.
pub proof fn lemma_bools_bytes_props(v: Seq<bool>, i: int)
    requires
        0 <= i,
    ensures
        spec_bools_bytes(v, i).len() == i,
        forall|k: int|
            0 <= k < i ==> #[trigger] spec_bools_bytes(v, i)[k] == (if v[k] {
                1u8
            } else {
                0u8
            }),
    decreases i,
{
    if i > 0 {
        lemma_bools_bytes_props(v, i - 1);
    }
}

/// The shape of one serialized offsets list.
pub proof fn lemma_offsets_bytes_props(v: Seq<usize>, i: int)
    requires
        0 <= i,
    ensures
        spec_offsets_bytes(v, i).len() == 8 * i,
        forall|k: int|
            0 <= k < i ==> #[trigger] spec_offsets_bytes(v, i).subrange(8 * k, 8 * k + 8) == u64le(
                v[k] as u64,
            ),
    decreases i,
{
    vstd::bytes::lemma_auto_spec_u64_to_from_le_bytes();
    if i > 0 {
        lemma_offsets_bytes_props(v, i - 1);
        assert forall|k: int|
            0 <= k < i implies #[trigger] spec_offsets_bytes(v, i).subrange(8 * k, 8 * k + 8)
            == u64le(v[k] as u64) by {
            if k < i - 1 {
                assert(spec_offsets_bytes(v, i).subrange(8 * k, 8 * k + 8) =~= spec_offsets_bytes(
                    v,
                    i - 1,
                ).subrange(8 * k, 8 * k + 8));
            } else {
                assert(spec_offsets_bytes(v, i).subrange(8 * k, 8 * k + 8) =~= u64le(v[k] as u64));
            }
        }
    }
}

/// Reads an optional validity mask of expected length `n`. On success the
/// consumed bytes are exactly the mask's serialized form; and whenever the
/// bytes at `pos` hold the serialized form of some mask of length `n`, the
/// read succeeds with a mask of the same contents.
#[verifier::loop_isolation(false)]
#[verifier::rlimit(100)]
pub fn read_validity(bytes: &Vec<u8>, pos: usize, end: usize, n: usize) -> (r: VortexResult<
    (Option<Vec<bool>>, usize),
>)
    requires
        pos <= end,
        end <= bytes@.len(),
    ensures
        match r {
            Result::Ok((v, used)) => {
                &&& pos <= used <= end
                &&& crate::array::validity_len_ok(v, n as int)
                &&& bytes@.subrange(pos as int, used as int) == spec_validity_bytes(v)
            },
            Result::Err(VortexError::InvalidSerde) => true,
            Result::Err(_) => false,
        },
        forall|v0: Option<Vec<bool>>|
            #![trigger spec_validity_bytes(v0)]
            (crate::array::validity_len_ok(v0, n as int) && pos + spec_validity_bytes(v0).len()
                <= end && bytes@.subrange(
                pos as int,
                pos + spec_validity_bytes(v0).len(),
            ) == spec_validity_bytes(v0)) ==> (r is Ok && (r->Ok_0).1 == pos
                + spec_validity_bytes(v0).len() && crate::array::same_validity((r->Ok_0).0, v0)),
{
    if pos >= end {
        return Result::Err(VortexError::InvalidSerde);
    }
    let presence = bytes[pos];
    if presence == 0 {
        proof {
            assert(bytes@.subrange(pos as int, pos + 1) =~= spec_validity_bytes(
                Option::<Vec<bool>>::None,
            ));
            assert forall|v0: Option<Vec<bool>>|
                (crate::array::validity_len_ok(v0, n as int) && pos + spec_validity_bytes(
                    v0,
                ).len() <= end && bytes@.subrange(
                    pos as int,
                    pos + spec_validity_bytes(v0).len(),
                ) == #[trigger] spec_validity_bytes(v0)) implies v0 is None by {
                if v0 is Some {
                    assert(spec_validity_bytes(v0)[0] == 1u8);
                    assert(bytes@[pos as int] == spec_validity_bytes(v0)[0]);
                }
            }
        }
        return Result::Ok((Option::None, pos + 1));
    }
    if presence != 1 {
        proof {
            assert forall|v0: Option<Vec<bool>>|
                !(crate::array::validity_len_ok(v0, n as int) && pos + spec_validity_bytes(
                    v0,
                ).len() <= end && bytes@.subrange(
                    pos as int,
                    pos + spec_validity_bytes(v0).len(),
                ) == #[trigger] spec_validity_bytes(v0)) by {
                if v0 is Some {
                    lemma_bools_bytes_props(v0->0@, v0->0@.len() as int);
                }
                assert(spec_validity_bytes(v0)[0] == 0u8 || spec_validity_bytes(v0)[0] == 1u8);
            }
        }
        return Result::Err(VortexError::InvalidSerde);
    }
    if end - pos < 9 {
        proof {
            assert forall|v0: Option<Vec<bool>>|
                !(crate::array::validity_len_ok(v0, n as int) && pos + spec_validity_bytes(
                    v0,
                ).len() <= end && bytes@.subrange(
                    pos as int,
                    pos + spec_validity_bytes(v0).len(),
                ) == #[trigger] spec_validity_bytes(v0)) by {
                if v0 is Some {
                    vstd::bytes::lemma_auto_spec_u64_to_from_le_bytes();
                    lemma_bools_bytes_props(v0->0@, v0->0@.len() as int);
                    assert(spec_validity_bytes(v0).len() >= 9);
                } else {
                    assert(spec_validity_bytes(v0)[0] == 0u8);
                    assert(bytes@[pos as int] == 1u8);
                }
            }
        }
        return Result::Err(VortexError::InvalidSerde);
    }
    let ml = read_u64(bytes, pos + 1);
    proof {
        vstd::bytes::lemma_auto_spec_u64_to_from_le_bytes();
    }
    if ml != n as u64 || ml > (end - (pos + 9)) as u64 {
        proof {
            lemma_validity_some_mismatch(bytes@, pos as int, end as int, n as int);
        }
        return Result::Err(VortexError::InvalidSerde);
    }
    let ml = ml as usize;
    let mut m: Vec<bool> = Vec::new();
    let mut t: usize = 0;
    while t < ml
        invariant
            pos + 9 + ml <= end,
            end <= bytes@.len(),
            t <= ml,
            m@.len() == t,
            forall|k: int|
                0 <= k < t ==> bytes@[pos + 9 + k] == (if m@[k] {
                    1u8
                } else {
                    0u8
                }),
        decreases ml - t,
    {
        let byte = bytes[pos + 9 + t];
        if byte > 1 {
            proof {
                lemma_validity_some_mismatch(bytes@, pos as int, end as int, n as int);
            }
            return Result::Err(VortexError::InvalidSerde);
        }
        m.push(byte == 1);
        t = t + 1;
    }
    let v = Option::Some(m);
    proof {
        lemma_bools_bytes_props(v->0@, ml as int);
        assert(bytes@.subrange(pos as int, pos + 9 + ml) =~= spec_validity_bytes(v));
        assert forall|v0: Option<Vec<bool>>|
            (crate::array::validity_len_ok(v0, n as int) && pos + spec_validity_bytes(v0).len()
                <= end && bytes@.subrange(
                pos as int,
                pos + spec_validity_bytes(v0).len(),
            ) == #[trigger] spec_validity_bytes(v0)) implies (v0 is Some && pos
            + spec_validity_bytes(v0).len() == pos + 9 + ml && crate::array::same_validity(
            v,
            v0,
        )) by {
            if v0 is None {
                assert(spec_validity_bytes(v0)[0] == 0u8);
                assert(bytes@[pos as int] == 1u8);
            } else {
                let m0 = v0->0@;
                lemma_bools_bytes_props(m0, m0.len() as int);
                assert(spec_validity_bytes(v0).len() == 9 + m0.len());
                assert forall|k: int| 0 <= k < ml implies m@[k] == m0[k] by {
                    assert(bytes@[pos + 9 + k] == spec_validity_bytes(v0)[9 + k]);
                    assert(spec_validity_bytes(v0)[9 + k] == spec_bools_bytes(m0, m0.len() as int)[
                        k
                    ]);
                }
                assert(m@ =~= m0);
            }
        }
    }
    Result::Ok((v, pos + 9 + ml))
}

/// When a present mask's header does not match the expected length `n`, no
/// serialized mask of length `n` sits at `pos`.
proof fn lemma_validity_some_mismatch(bytes: Seq<u8>, pos: int, end: int, n: int)
    requires
        0 <= pos < end <= bytes.len(),
        end <= u64::MAX,
        bytes[pos] == 1u8,
        pos + 9 <= end,
        ({
            let ml = vstd::bytes::spec_u64_from_le_bytes(bytes.subrange(pos + 1, pos + 9));
            ml != n || ml > (end - (pos + 9)) as u64 || exists|k: int|
                0 <= k < n && pos + 9 + k < end && #[trigger] bytes[pos + 9 + k] > 1
        }),
    ensures
        forall|v0: Option<Vec<bool>>|
            #![trigger spec_validity_bytes(v0)]
            !(crate::array::validity_len_ok(v0, n) && pos + spec_validity_bytes(v0).len() <= end
                && bytes.subrange(pos, pos + spec_validity_bytes(v0).len())
                == spec_validity_bytes(v0)),
{
    vstd::bytes::lemma_auto_spec_u64_to_from_le_bytes();
    assert forall|v0: Option<Vec<bool>>|
        !(crate::array::validity_len_ok(v0, n) && pos + #[trigger] spec_validity_bytes(v0).len()
            <= end && bytes.subrange(pos, pos + spec_validity_bytes(v0).len())
            == spec_validity_bytes(v0)) by {
        if crate::array::validity_len_ok(v0, n) && pos + spec_validity_bytes(v0).len() <= end
            && bytes.subrange(pos, pos + spec_validity_bytes(v0).len()) == spec_validity_bytes(
            v0,
        ) {
            let s = spec_validity_bytes(v0);
            assert(bytes[pos] == bytes.subrange(pos, pos + s.len())[0]);
            match v0 {
                Option::None => {
                    assert(s[0] == 0u8);
                },
                Option::Some(m0) => {
                    lemma_bools_bytes_props(m0@, m0@.len() as int);
                    assert(s.len() == 9 + m0@.len());
                    assert(bytes.subrange(pos + 1, pos + 9) =~= s.subrange(1, 9));
                    assert(s.subrange(1, 9) =~= u64le(m0@.len() as u64));
                    assert(vstd::bytes::spec_u64_from_le_bytes(bytes.subrange(pos + 1, pos + 9))
                        == m0@.len() as u64);
                    assert forall|k: int| 0 <= k < n implies #[trigger] bytes[pos + 9 + k]
                        <= 1 by {
                        assert(bytes[pos + 9 + k] == bytes.subrange(pos, pos + s.len())[9 + k]);
                        assert(s[9 + k] == spec_bools_bytes(m0@, m0@.len() as int)[k]);
                    }
                },
            }
        }
    }
}

/// The head byte and overall length of every persistable message.
pub proof fn lemma_array_bytes_head(a0: Array)
    requires
        wf(a0),
        persistable(a0),
    ensures
        spec_array_bytes(a0).len() >= 2,
        spec_array_bytes(a0)[0] == (match a0 {
            Array::Primitive(_) => 1u8,
            Array::Bool(_) => 2u8,
            Array::VarBin(_) => 3u8,
            _ => 9u8,
        }),
{
    vstd::bytes::lemma_auto_spec_u64_to_from_le_bytes();
    match a0 {
        Array::Primitive(p) => {
            lemma_u64s_bytes_props(p.values@, p.values@.len() as int);
        },
        Array::Bool(b) => {
            lemma_bools_bytes_props(b.values@, b.values@.len() as int);
        },
        Array::VarBin(v) => {
            lemma_offsets_bytes_props(v.offsets@, v.offsets@.len() as int);
        },
        _ => {},
    }
}

/// The segments of a serialized primitive message.
pub proof fn lemma_prim_bytes_shape(a0: Array)
    requires
        wf(a0),
        a0 is Primitive,
    ensures
        ({
            let p = a0->Primitive_0;
            let s = spec_array_bytes(a0);
            let n = p.values@.len() as int;
            let vb = spec_validity_bytes(p.validity);
            &&& s.len() == 10 + 8 * n + vb.len()
            &&& vb.len() >= 1
            &&& s[0] == 1u8
            &&& s[1] == spec_ptype_tag(p.ptype)
            &&& s.subrange(2, 10) == u64le(p.values@.len() as u64)
            &&& (forall|k: int|
                0 <= k < n ==> #[trigger] s.subrange(10 + 8 * k, 10 + 8 * k + 8) == u64le(
                    p.values@[k],
                ))
            &&& s.subrange(10 + 8 * n, s.len() as int) == vb
        }),
{
    vstd::bytes::lemma_auto_spec_u64_to_from_le_bytes();
    let p = a0->Primitive_0;
    let s = spec_array_bytes(a0);
    let n = p.values@.len() as int;
    lemma_u64s_bytes_props(p.values@, n);
    if p.validity is Some {
        lemma_bools_bytes_props(p.validity->0@, p.validity->0@.len() as int);
    }
    assert(s.subrange(2, 10) =~= u64le(p.values@.len() as u64));
    assert forall|k: int|
        0 <= k < n implies #[trigger] s.subrange(10 + 8 * k, 10 + 8 * k + 8) == u64le(
        p.values@[k],
    ) by {
        assert(s.subrange(10 + 8 * k, 10 + 8 * k + 8) =~= spec_u64s_bytes(p.values@, n).subrange(
            8 * k,
            8 * k + 8,
        ));
    }
    assert(s.subrange(10 + 8 * n, s.len() as int) =~= spec_validity_bytes(p.validity));
}

/// The segments of a serialized boolean message.
pub proof fn lemma_bool_bytes_shape(a0: Array)
    requires
        wf(a0),
        a0 is Bool,
    ensures
        ({
            let b = a0->Bool_0;
            let s = spec_array_bytes(a0);
            let n = b.values@.len() as int;
            let vb = spec_validity_bytes(b.validity);
            &&& s.len() == 9 + n + vb.len()
            &&& vb.len() >= 1
            &&& s[0] == 2u8
            &&& s.subrange(1, 9) == u64le(b.values@.len() as u64)
            &&& (forall|k: int|
                0 <= k < n ==> #[trigger] s[9 + k] == (if b.values@[k] {
                    1u8
                } else {
                    0u8
                }))
            &&& s.subrange(9 + n, s.len() as int) == vb
        }),
{
    vstd::bytes::lemma_auto_spec_u64_to_from_le_bytes();
    let b = a0->Bool_0;
    let s = spec_array_bytes(a0);
    let n = b.values@.len() as int;
    lemma_bools_bytes_props(b.values@, n);
    if b.validity is Some {
        lemma_bools_bytes_props(b.validity->0@, b.validity->0@.len() as int);
    }
    assert(s.subrange(1, 9) =~= u64le(b.values@.len() as u64));
    assert forall|k: int|
        0 <= k < n implies #[trigger] s[9 + k] == (if b.values@[k] {
        1u8
    } else {
        0u8
    }) by {
        assert(s[9 + k] == spec_bools_bytes(b.values@, n)[k]);
    }
    assert(s.subrange(9 + n, s.len() as int) =~= spec_validity_bytes(b.validity));
}

/// The segments of a serialized byte-string message.
pub proof fn lemma_varbin_bytes_shape(a0: Array)
    requires
        wf(a0),
        a0 is VarBin,
    ensures
        ({
            let v = a0->VarBin_0;
            let s = spec_array_bytes(a0);
            let no = v.offsets@.len() as int;
            let nb = v.bytes@.len() as int;
            let vb = spec_validity_bytes(v.validity);
            &&& s.len() == 10 + 8 * no + 8 + nb + vb.len()
            &&& vb.len() >= 1
            &&& s[0] == 3u8
            &&& s[1] == (if v.is_utf8 {
                1u8
            } else {
                0u8
            })
            &&& s.subrange(2, 10) == u64le(v.offsets@.len() as u64)
            &&& (forall|k: int|
                0 <= k < no ==> #[trigger] s.subrange(10 + 8 * k, 10 + 8 * k + 8) == u64le(
                    v.offsets@[k] as u64,
                ))
            &&& s.subrange(10 + 8 * no, 10 + 8 * no + 8) == u64le(v.bytes@.len() as u64)
            &&& s.subrange(10 + 8 * no + 8, 10 + 8 * no + 8 + nb) == v.bytes@
            &&& s.subrange(10 + 8 * no + 8 + nb, s.len() as int) == vb
        }),
{
    vstd::bytes::lemma_auto_spec_u64_to_from_le_bytes();
    let v = a0->VarBin_0;
    let s = spec_array_bytes(a0);
    let no = v.offsets@.len() as int;
    let nb = v.bytes@.len() as int;
    lemma_offsets_bytes_props(v.offsets@, no);
    if v.validity is Some {
        lemma_bools_bytes_props(v.validity->0@, v.validity->0@.len() as int);
    }
    assert(s.subrange(2, 10) =~= u64le(v.offsets@.len() as u64));
    assert forall|k: int|
        0 <= k < no implies #[trigger] s.subrange(10 + 8 * k, 10 + 8 * k + 8) == u64le(
        v.offsets@[k] as u64,
    ) by {
        assert(s.subrange(10 + 8 * k, 10 + 8 * k + 8) =~= spec_offsets_bytes(
            v.offsets@,
            no,
        ).subrange(8 * k, 8 * k + 8));
    }
    assert(s.subrange(10 + 8 * no, 10 + 8 * no + 8) =~= u64le(v.bytes@.len() as u64));
    assert(s.subrange(10 + 8 * no + 8, 10 + 8 * no + 8 + nb) =~= v.bytes@);
    assert(s.subrange(10 + 8 * no + 8 + nb, s.len() as int) =~= spec_validity_bytes(v.validity));
}

/// The segments of a serialized bitmap message.
pub proof fn lemma_roaring_bytes_shape(a0: Array)
    requires
        wf(a0),
        a0 is RoaringBool,
    ensures
        ({
            let rb = a0->RoaringBool_0;
            let s = spec_array_bytes(a0);
            let bb = crate::bitmap::bitmap_bytes(rb.bitmap);
            &&& s.len() == 17 + bb.len()
            &&& s[0] == 9u8
            &&& s.subrange(1, 9) == u64le(rb.length as u64)
            &&& s.subrange(9, 17) == u64le(bb.len() as u64)
            &&& s.subrange(17, s.len() as int) == bb
        }),
{
    vstd::bytes::lemma_auto_spec_u64_to_from_le_bytes();
    let rb = a0->RoaringBool_0;
    let s = spec_array_bytes(a0);
    let bb = crate::bitmap::bitmap_bytes(rb.bitmap);
    assert(s.subrange(1, 9) =~= u64le(rb.length as u64));
    assert(s.subrange(9, 17) =~= u64le(bb.len() as u64));
    assert(s.subrange(17, s.len() as int) =~= bb);
}

/// What decoding promises about the message at `bytes[pos..end)`: whenever
/// that range is the serialized form of some persistable array, the parse
/// succeeds and returns an array of the same kind, length, logical type and
/// element view.
pub open spec fn decodes_back(r: VortexResult<Array>, bytes: Seq<u8>, pos: int, end: int) -> bool {
    forall|a0: Array|
        #![trigger spec_array_bytes(a0)]
        (wf(a0) && persistable(a0) && bytes.subrange(pos, end) == spec_array_bytes(a0)) ==> (r
            is Ok && {
            let b = r->Ok_0;
            &&& b.kind() == a0.kind()
            &&& alen(b) == alen(a0)
            &&& aview(b) == aview(a0)
            &&& forall|d: DType| has_dtype(a0, d) ==> #[trigger] has_dtype(b, d)
        })
}

/// Parses one data message written by [`encode_array`]. The message must
/// fill `bytes[pos..end)` exactly; whenever that range holds the serialized
/// form of some persistable array, the result reproduces it
/// ([`decodes_back`]).
#[verifier::loop_isolation(false)]
#[verifier::rlimit(100)]
pub fn decode_array(bytes: &Vec<u8>, pos: usize, end: usize) -> (r: VortexResult<Array>)
    requires
        pos <= end,
        end <= bytes@.len(),
    ensures
        match r {
            Result::Ok(b) => wf(b) && persistable(b) && !(b is Struct) && !(b is Chunked),
            Result::Err(VortexError::InvalidSerde) => true,
            Result::Err(_) => false,
        },
        decodes_back(r, bytes@, pos as int, end as int),
{
    if pos >= end {
        proof {
            assert forall|a0: Array|
                !(wf(a0) && persistable(a0) && bytes@.subrange(pos as int, end as int)
                    == #[trigger] spec_array_bytes(a0)) by {
                if wf(a0) && persistable(a0) {
                    lemma_array_bytes_head(a0);
                }
            }
        }
        return Result::Err(VortexError::InvalidSerde);
    }
    let tag = bytes[pos];
    proof {
        assert forall|a0: Array|
            (wf(a0) && persistable(a0) && bytes@.subrange(pos as int, end as int)
                == #[trigger] spec_array_bytes(a0)) implies tag == (match a0 {
            Array::Primitive(_) => 1u8,
            Array::Bool(_) => 2u8,
            Array::VarBin(_) => 3u8,
            _ => 9u8,
        }) by {
            lemma_array_bytes_head(a0);
            assert(bytes@[pos as int] == bytes@.subrange(pos as int, end as int)[0]);
        }
    }
    if tag == 1 {
        decode_primitive(bytes, pos, end)
    } else if tag == 2 {
        decode_bool(bytes, pos, end)
    } else if tag == 3 {
        decode_varbin(bytes, pos, end)
    } else if tag == 9 {
        decode_roaring(bytes, pos, end)
    } else {
        Result::Err(VortexError::InvalidSerde)
    }
}


/// Writes a file: one column per field, each a list of chunk arrays of the
/// column's type. The schema sits at offset zero, the data messages follow,
/// then the layout tree — a struct of per-column chunked layouts, each
/// leading with one metadata leaf and holding one flat leaf per chunk whose
/// byte range is exactly that chunk's serialized message — and the trailer
/// closes the file with the schema and footer offsets.
#[verifier::loop_isolation(false)]
#[verifier::rlimit(100)]
#[verifier::spinoff_prover]
pub fn write_file(names: &Vec<Vec<u8>>, columns: &Vec<Vec<Array>>, dtype: &DType) -> (r:
    VortexResult<Vec<u8>>)
    requires
        names@.len() == columns@.len(),
        forall|i: int, j: int|
            0 <= i < columns@.len() && 0 <= j < columns@[i]@.len() ==> wf(
                #[trigger] columns@[i]@[j],
            ),
    ensures
        match r {
            Result::Ok(bytes) => {
                &&& bytes@.len() >= FOOTER_TRAILER_SIZE
                &&& spec_trailer_ok(bytes@.len() as u64, bytes@, 0)
                &&& vstd::bytes::spec_u64_from_le_bytes(
                    bytes@.subrange(
                        bytes@.len() - FOOTER_TRAILER_SIZE,
                        bytes@.len() - 12,
                    ),
                ) == 0
                &&& bytes@.subrange(0, spec_dtype_bytes(*dtype).len() as int) == spec_dtype_bytes(
                    *dtype,
                )
                &&& exists|l0: Layout|
                    {
                        let fo = vstd::bytes::spec_u64_from_le_bytes(
                            bytes@.subrange(bytes@.len() - 12, bytes@.len() - 4),
                        );
                        &&& layout_wf(l0)
                        &&& l0 is Struct
                        &&& l0->Struct_0@.len() == columns@.len()
                        &&& (forall|i: int|
                            0 <= i < columns@.len() ==> {
                                let cl = #[trigger] l0->Struct_0@[i];
                                &&& cl is Chunked
                                &&& cl->Chunked_0@.len() == columns@[i]@.len() + 1
                                &&& (forall|j: int|
                                    0 <= j < columns@[i]@.len() ==> {
                                        let leaf = #[trigger] cl->Chunked_0@[j + 1];
                                        &&& leaf is Flat
                                        &&& leaf->Flat_0.begin <= leaf->Flat_0.end
                                        &&& leaf->Flat_0.end <= bytes@.len()
                                        &&& bytes@.subrange(
                                            leaf->Flat_0.begin as int,
                                            leaf->Flat_0.end as int,
                                        ) == spec_array_bytes(columns@[i]@[j])
                                    })
                            })
                        &&& bytes@.subrange(
                            fo as int,
                            fo + #[trigger] spec_layout_bytes(l0).len(),
                        ) == spec_layout_bytes(l0)
                    }
            },
            Result::Err(_) => true,
        },
{
    proof {
        vstd::bytes::lemma_auto_spec_u64_to_from_le_bytes();
    }
    let mut buf: Vec<u8> = Vec::new();
    let schema_offset = buf.len() as u64;
    encode_dtype(dtype, &mut buf);
    let ghost dbytes = spec_dtype_bytes(*dtype);
    proof {
        assert(buf@.subrange(0, dbytes.len() as int) =~= dbytes);
    }
    let mut col_layouts: Vec<Layout> = Vec::new();
    for i in 0..columns.len()
        invariant
            col_layouts@.len() == i,
            dbytes.len() <= buf@.len(),
            buf@.subrange(0, dbytes.len() as int) == dbytes,
            forall|k: int| 0 <= k < i ==> layout_wf(#[trigger] col_layouts@[k]),
            forall|k: int|
                0 <= k < i ==> {
                    let cl = #[trigger] col_layouts@[k];
                    &&& cl is Chunked
                    &&& cl->Chunked_0@.len() == columns@[k]@.len() + 1
                    &&& (forall|j: int|
                        0 <= j < columns@[k]@.len() ==> {
                            let leaf = #[trigger] cl->Chunked_0@[j + 1];
                            &&& leaf is Flat
                            &&& leaf->Flat_0.begin <= leaf->Flat_0.end
                            &&& leaf->Flat_0.end <= buf@.len()
                            &&& buf@.subrange(
                                leaf->Flat_0.begin as int,
                                leaf->Flat_0.end as int,
                            ) == spec_array_bytes(columns@[k]@[j])
                        })
                },
    {
        let ghost buf_at_col = buf@;
        let mut chunk_layouts: Vec<Layout> = Vec::new();
        let meta_begin = buf.len() as u64;
        buf.push(0u8);
        let meta_end = buf.len() as u64;
        if meta_begin > meta_end {
            return Result::Err(VortexError::Io);
        }
        proof {
            assert(buf@.subrange(0, buf_at_col.len() as int) =~= buf_at_col);
            assert(buf@.subrange(0, dbytes.len() as int) =~= dbytes);
            lemma_ranges_stable(buf_at_col, buf@, col_layouts@, columns@, i as int);
        }
        chunk_layouts.push(
            Layout::Flat(ByteRange { begin: meta_begin, end: meta_end }, EncodingKind::Constant),
        );
        let col = &columns[i];
        for j in 0..col.len()
            invariant
                chunk_layouts@.len() == j + 1,
                dbytes.len() <= buf@.len(),
                buf@.subrange(0, dbytes.len() as int) == dbytes,
                forall|k: int|
                    0 <= k < j + 1 ==> layout_wf(#[trigger] chunk_layouts@[k]),
                forall|t: int|
                    0 <= t < j ==> {
                        let leaf = #[trigger] chunk_layouts@[t + 1];
                        &&& leaf is Flat
                        &&& leaf->Flat_0.begin <= leaf->Flat_0.end
                        &&& leaf->Flat_0.end <= buf@.len()
                        &&& buf@.subrange(
                            leaf->Flat_0.begin as int,
                            leaf->Flat_0.end as int,
                        ) == spec_array_bytes(columns@[i as int]@[t])
                    },
                forall|k: int| 0 <= k < i ==> layout_wf(#[trigger] col_layouts@[k]),
                forall|k: int|
                    0 <= k < i ==> {
                        let cl = #[trigger] col_layouts@[k];
                        &&& cl is Chunked
                        &&& cl->Chunked_0@.len() == columns@[k]@.len() + 1
                        &&& (forall|t: int|
                            0 <= t < columns@[k]@.len() ==> {
                                let leaf = #[trigger] cl->Chunked_0@[t + 1];
                                &&& leaf is Flat
                                &&& leaf->Flat_0.begin <= leaf->Flat_0.end
                                &&& leaf->Flat_0.end <= buf@.len()
                                &&& buf@.subrange(
                                    leaf->Flat_0.begin as int,
                                    leaf->Flat_0.end as int,
                                ) == spec_array_bytes(columns@[k]@[t])
                            })
                    },
        {
            proof {
                assert(wf(columns@[i as int]@[j as int]));
            }
            let ghost buf_before = buf@;
            let begin = buf.len() as u64;
            let kind = col[j].encoding();
            match encode_array(&col[j], &mut buf) {
                Result::Ok(_) => {},
                Result::Err(e) => {
                    return Result::Err(e);
                },
            }
            let end = buf.len() as u64;
            if begin > end {
                return Result::Err(VortexError::Io);
            }
            proof {
                assert(buf@.subrange(0, buf_before.len() as int) =~= buf_before);
                assert(buf@.subrange(0, dbytes.len() as int) =~= dbytes);
                lemma_ranges_stable(buf_before, buf@, col_layouts@, columns@, i as int);
                lemma_chunk_ranges_stable(
                    buf_before,
                    buf@,
                    chunk_layouts@,
                    columns@[i as int]@,
                    j as int,
                );
                assert(buf@.subrange(begin as int, end as int) =~= spec_array_bytes(
                    columns@[i as int]@[j as int],
                ));
            }
            chunk_layouts.push(Layout::Flat(ByteRange { begin, end }, kind));
        }
        col_layouts.push(Layout::Chunked(chunk_layouts));
    }
    let top = Layout::Struct(col_layouts);
    proof {
        assert(layout_wf(top));
    }
    let footer_offset = buf.len() as u64;
    let ghost buf_pre_layout = buf@;
    encode_layout(&top, &mut buf);
    let ghost pre = buf@;
    push_trailer(&mut buf, schema_offset, footer_offset);
    let blen = buf.len();
    proof {
        assert(blen == buf@.len());
        assert(buf@.len() == pre.len() + FOOTER_TRAILER_SIZE);
        assert(buf@.subrange(buf@.len() - FOOTER_TRAILER_SIZE, buf@.len() as int) =~= spec_trailer(
            schema_offset,
            footer_offset,
        ));
        assert(buf@.subrange(buf@.len() - FOOTER_TRAILER_SIZE, buf@.len() - 12) =~= u64le(
            schema_offset,
        ));
        assert(buf@.subrange(buf@.len() - 12, buf@.len() - 4) =~= u64le(footer_offset));
        assert(buf@.subrange(buf@.len() - 4, buf@.len() as int) =~= spec_magic());
        assert(buf@.subrange(
            footer_offset as int,
            footer_offset + spec_layout_bytes(top).len(),
        ) =~= spec_layout_bytes(top));
        assert(buf@.subrange(0, dbytes.len() as int) =~= dbytes);
        assert(schema_offset == 0);
        assert(pre == buf_pre_layout + spec_layout_bytes(top));
        assert(footer_offset as int == buf_pre_layout.len());
        assert(footer_offset as int <= buf@.len() - FOOTER_TRAILER_SIZE);
        assert(vstd::bytes::spec_u64_from_le_bytes(
            buf@.subrange(buf@.len() - FOOTER_TRAILER_SIZE, buf@.len() - 12),
        ) == schema_offset);
        assert(vstd::bytes::spec_u64_from_le_bytes(
            buf@.subrange(buf@.len() - 12, buf@.len() - 4),
        ) == footer_offset);
        assert(buf@.len() as u64 >= FOOTER_TRAILER_SIZE as u64);
        assert(buf@.subrange(buf@.len() - 4, buf@.len() as int) == spec_magic());
        assert(0 <= schema_offset <= footer_offset);
        assert(footer_offset as int <= buf@.len() as u64 - FOOTER_TRAILER_SIZE);
        assert(spec_trailer_ok(buf@.len() as u64, buf@, 0));
        assert(buf@.subrange(0, buf_pre_layout.len() as int) =~= buf_pre_layout);
        lemma_ranges_stable(buf_pre_layout, buf@, top->Struct_0@, columns@, columns@.len() as int);
        assert(exists|l0: Layout|
            {
                let fo = vstd::bytes::spec_u64_from_le_bytes(
                    buf@.subrange(buf@.len() - 12, buf@.len() - 4),
                );
                &&& layout_wf(l0)
                &&& l0 is Struct
                &&& l0->Struct_0@.len() == columns@.len()
                &&& (forall|i: int|
                    0 <= i < columns@.len() ==> {
                        let cl = #[trigger] l0->Struct_0@[i];
                        &&& cl is Chunked
                        &&& cl->Chunked_0@.len() == columns@[i]@.len() + 1
                        &&& (forall|j: int|
                            0 <= j < columns@[i]@.len() ==> {
                                let leaf = #[trigger] cl->Chunked_0@[j + 1];
                                &&& leaf is Flat
                                &&& leaf->Flat_0.begin <= leaf->Flat_0.end
                                &&& leaf->Flat_0.end <= buf@.len()
                                &&& buf@.subrange(
                                    leaf->Flat_0.begin as int,
                                    leaf->Flat_0.end as int,
                                ) == spec_array_bytes(columns@[i]@[j])
                            })
                    })
                &&& buf@.subrange(fo as int, fo + #[trigger] spec_layout_bytes(l0).len())
                    == spec_layout_bytes(l0)
            }) by {
            assert(layout_wf(top) && top is Struct && top->Struct_0@.len() == columns@.len()
                && buf@.subrange(
                vstd::bytes::spec_u64_from_le_bytes(
                    buf@.subrange(buf@.len() - 12, buf@.len() - 4),
                ) as int,
                vstd::bytes::spec_u64_from_le_bytes(
                    buf@.subrange(buf@.len() - 12, buf@.len() - 4),
                ) + spec_layout_bytes(top).len(),
            ) == spec_layout_bytes(top));
        }
    }
    Result::Ok(buf)
}

/// Recorded per-chunk byte ranges keep their contents as the buffer grows.
proof fn lemma_ranges_stable(
    b1: Seq<u8>,
    b2: Seq<u8>,
    cols: Seq<Layout>,
    columns: Seq<Vec<Array>>,
    n: int,
)
    requires
        b1.len() <= b2.len(),
        b2.subrange(0, b1.len() as int) == b1,
        n <= cols.len(),
        n <= columns.len(),
        forall|k: int|
            0 <= k < n ==> {
                let cl = #[trigger] cols[k];
                &&& cl is Chunked
                &&& cl->Chunked_0@.len() == columns[k]@.len() + 1
                &&& (forall|t: int|
                    0 <= t < columns[k]@.len() ==> {
                        let leaf = #[trigger] cl->Chunked_0@[t + 1];
                        &&& leaf is Flat
                        &&& leaf->Flat_0.begin <= leaf->Flat_0.end
                        &&& leaf->Flat_0.end <= b1.len()
                        &&& b1.subrange(leaf->Flat_0.begin as int, leaf->Flat_0.end as int)
                            == spec_array_bytes(columns[k]@[t])
                    })
            },
    ensures
        forall|k: int|
            0 <= k < n ==> {
                let cl = #[trigger] cols[k];
                &&& cl is Chunked
                &&& cl->Chunked_0@.len() == columns[k]@.len() + 1
                &&& (forall|t: int|
                    0 <= t < columns[k]@.len() ==> {
                        let leaf = #[trigger] cl->Chunked_0@[t + 1];
                        &&& leaf is Flat
                        &&& leaf->Flat_0.begin <= leaf->Flat_0.end
                        &&& leaf->Flat_0.end <= b2.len()
                        &&& b2.subrange(leaf->Flat_0.begin as int, leaf->Flat_0.end as int)
                            == spec_array_bytes(columns[k]@[t])
                    })
            },
{
    assert forall|k: int| 0 <= k < n implies {
        let cl = #[trigger] cols[k];
        &&& cl is Chunked
        &&& cl->Chunked_0@.len() == columns[k]@.len() + 1
        &&& (forall|t: int|
            0 <= t < columns[k]@.len() ==> {
                let leaf = #[trigger] cl->Chunked_0@[t + 1];
                &&& leaf is Flat
                &&& leaf->Flat_0.begin <= leaf->Flat_0.end
                &&& leaf->Flat_0.end <= b2.len()
                &&& b2.subrange(leaf->Flat_0.begin as int, leaf->Flat_0.end as int)
                    == spec_array_bytes(columns[k]@[t])
            })
    } by {
        let cl = cols[k];
        assert forall|t: int| 0 <= t < columns[k]@.len() implies {
            let leaf = #[trigger] cl->Chunked_0@[t + 1];
            &&& leaf is Flat
            &&& leaf->Flat_0.begin <= leaf->Flat_0.end
            &&& leaf->Flat_0.end <= b2.len()
            &&& b2.subrange(leaf->Flat_0.begin as int, leaf->Flat_0.end as int)
                == spec_array_bytes(columns[k]@[t])
        } by {
            let leaf = cl->Chunked_0@[t + 1];
            assert(b2.subrange(leaf->Flat_0.begin as int, leaf->Flat_0.end as int)
                =~= b1.subrange(leaf->Flat_0.begin as int, leaf->Flat_0.end as int));
        }
    }
}

/// As [`lemma_ranges_stable`], for the chunk list of the column being built.
proof fn lemma_chunk_ranges_stable(
    b1: Seq<u8>,
    b2: Seq<u8>,
    chunks: Seq<Layout>,
    col: Seq<Array>,
    n: int,
)
    requires
        b1.len() <= b2.len(),
        b2.subrange(0, b1.len() as int) == b1,
        n + 1 <= chunks.len(),
        n <= col.len(),
        forall|t: int|
            0 <= t < n ==> {
                let leaf = #[trigger] chunks[t + 1];
                &&& leaf is Flat
                &&& leaf->Flat_0.begin <= leaf->Flat_0.end
                &&& leaf->Flat_0.end <= b1.len()
                &&& b1.subrange(leaf->Flat_0.begin as int, leaf->Flat_0.end as int)
                    == spec_array_bytes(col[t])
            },
    ensures
        forall|t: int|
            0 <= t < n ==> {
                let leaf = #[trigger] chunks[t + 1];
                &&& leaf is Flat
                &&& leaf->Flat_0.begin <= leaf->Flat_0.end
                &&& leaf->Flat_0.end <= b2.len()
                &&& b2.subrange(leaf->Flat_0.begin as int, leaf->Flat_0.end as int)
                    == spec_array_bytes(col[t])
            },
{
    assert forall|t: int| 0 <= t < n implies {
        let leaf = #[trigger] chunks[t + 1];
        &&& leaf is Flat
        &&& leaf->Flat_0.begin <= leaf->Flat_0.end
        &&& leaf->Flat_0.end <= b2.len()
        &&& b2.subrange(leaf->Flat_0.begin as int, leaf->Flat_0.end as int) == spec_array_bytes(
            col[t],
        )
    } by {
        let leaf = chunks[t + 1];
        assert(b2.subrange(leaf->Flat_0.begin as int, leaf->Flat_0.end as int) =~= b1.subrange(
            leaf->Flat_0.begin as int,
            leaf->Flat_0.end as int,
        ));
    }
}

/// Whether a file tail parses as a trailer: the file holds at least one
/// trailer, the magic closes it, and the two recorded offsets are ordered
/// within the file and inside the tail.
pub open spec fn spec_trailer_ok(file_len: u64, tail: Seq<u8>, tail_offset: u64) -> bool {
    let s = vstd::bytes::spec_u64_from_le_bytes(
        tail.subrange(tail.len() - FOOTER_TRAILER_SIZE, tail.len() - 12),
    );
    let f = vstd::bytes::spec_u64_from_le_bytes(tail.subrange(tail.len() - 12, tail.len() - 4));
    &&& file_len >= FOOTER_TRAILER_SIZE
    &&& tail.subrange(tail.len() - 4, tail.len() as int) == spec_magic()
    &&& tail_offset <= s <= f
    &&& f <= file_len - FOOTER_TRAILER_SIZE
}

/// Parses the trailer from the tail of a file. `tail` must be a suffix of
/// the file starting at `tail_offset`; the whole trailer must be within it.
/// Fails with `InvalidSerde` exactly when the file is shorter than a
/// trailer, the magic is wrong, or the recorded offsets are inconsistent.
#[verifier::loop_isolation(false)]
pub fn read_footer_from_tail(file_len: u64, tail: Vec<u8>, tail_offset: u64) -> (r: VortexResult<
    Footer,
>)
    requires
        tail_offset + tail@.len() == file_len,
        tail@.len() >= FOOTER_TRAILER_SIZE || file_len < FOOTER_TRAILER_SIZE,
    ensures
        match r {
            Result::Ok(f) => {
                &&& spec_trailer_ok(file_len, tail@, tail_offset)
                &&& f.wf_spec()
                &&& f.schema_offset == vstd::bytes::spec_u64_from_le_bytes(
                    tail@.subrange(
                        tail@.len() - FOOTER_TRAILER_SIZE,
                        tail@.len() - FOOTER_TRAILER_SIZE + 8,
                    ),
                )
                &&& f.footer_offset == vstd::bytes::spec_u64_from_le_bytes(
                    tail@.subrange(tail@.len() - 12, tail@.len() - 4),
                )
                &&& f.leftovers@ == tail@
                &&& f.leftovers_offset == tail_offset
            },
            Result::Err(VortexError::InvalidSerde) => !spec_trailer_ok(
                file_len,
                tail@,
                tail_offset,
            ),
            Result::Err(_) => false,
        },
{
    if file_len < FOOTER_TRAILER_SIZE as u64 {
        return Result::Err(VortexError::InvalidSerde);
    }
    let tlen = tail.len();
    let magic_loc = tlen - 4;
    let m = magic_bytes();
    let mut k: usize = 0;
    while k < 4
        invariant
            tlen == tail@.len(),
            tlen >= FOOTER_TRAILER_SIZE,
            magic_loc == tlen - 4,
            m@ == spec_magic(),
            k <= 4,
            forall|j: int| 0 <= j < k ==> tail@[magic_loc + j] == spec_magic()[j],
        decreases 4 - k,
    {
        if tail[magic_loc + k] != m[k] {
            return Result::Err(VortexError::InvalidSerde);
        }
        k = k + 1;
    }
    proof {
        assert(tail@.subrange(tail@.len() - 4, tail@.len() as int) =~= spec_magic());
    }
    let schema_offset = read_u64(&tail, tlen - 20);
    let footer_offset = read_u64(&tail, tlen - 12);
    proof {
        assert(tail@.subrange((tlen - 12) as int, (tlen - 12) as int + 8) =~= tail@.subrange(
            tail@.len() - 12,
            tail@.len() - 4,
        ));
        assert(tail@.subrange((tlen - 20) as int, (tlen - 20) as int + 8) =~= tail@.subrange(
            tail@.len() - FOOTER_TRAILER_SIZE,
            tail@.len() - FOOTER_TRAILER_SIZE + 8,
        ));
    }
    if schema_offset > footer_offset || schema_offset < tail_offset {
        return Result::Err(VortexError::InvalidSerde);
    }
    if footer_offset > file_len - FOOTER_TRAILER_SIZE as u64 {
        return Result::Err(VortexError::InvalidSerde);
    }
    let f = Footer { schema_offset, footer_offset, leftovers: tail, leftovers_offset: tail_offset };
    Result::Ok(f)
}

/// One comparison a row filter can push down.
#[derive(Clone, Copy, PartialEq, Eq, Structural, Debug)]
pub enum CompareOp {
    Lt,
    Le,
    Eq,
    Ge,
    Gt,
    Ne,
}

pub open spec fn cmp_holds(op: CompareOp, v: u64, lit: u64) -> bool {
    match op {
        CompareOp::Lt => v < lit,
        CompareOp::Le => v <= lit,
        CompareOp::Eq => v == lit,
        CompareOp::Ge => v >= lit,
        CompareOp::Gt => v > lit,
        CompareOp::Ne => v != lit,
    }
}

/// The canonical row-filter predicate: column, comparison, literal.
pub struct Predicate {
    pub column: usize,
    pub op: CompareOp,
    pub literal: u64,
}

/// A conjunction of predicates, evaluated left to right over each batch.
pub struct RowFilter {
    pub filters: Vec<Predicate>,
}

impl RowFilter {
    pub fn new(filters: Vec<Predicate>) -> (r: Self)
        ensures
            r.filters == filters,
    {
        Self { filters }
    }

    pub fn empty() -> (r: Self)
        ensures
            r.filters@.len() == 0,
    {
        Self { filters: Vec::new() }
    }
}

impl Predicate {
    /// Evaluates this predicate over one batch column: one boolean per row.
    #[verifier::loop_isolation(false)]
    pub fn evaluate(&self, batch: &StructArray) -> (r: VortexResult<Array>)
        requires
            wf(Array::Struct(*batch)),
        ensures
            match r {
                Result::Ok(mask) => {
                    &&& mask is Bool
                    &&& mask->Bool_0.validity is None
                    &&& mask->Bool_0.values@.len() == batch.length as nat
                    &&& wf(mask)
                    &&& (self.column as int) < batch.fields@.len()
                    &&& (viewable(batch.fields@[self.column as int]) ==> forall|k: int|
                        0 <= k < batch.length ==> (#[trigger] aview(
                            batch.fields@[self.column as int],
                        )[k] matches crate::scalar::Value::Prim(pt, v) ==> mask->Bool_0.values@[k]
                            == cmp_holds(self.op, v, self.literal)))
                },
                Result::Err(_) => true,
            },
            ((self.column as int) < batch.fields@.len() && crate::compute::flattenable(
                batch.fields@[self.column as int],
            ) && (exists|w: crate::dtype::IntWidth|
                #[trigger] has_dtype(
                    batch.fields@[self.column as int],
                    DType::Int(
                        w,
                        crate::dtype::Signedness::Unsigned,
                        Nullability::NonNullable,
                    ),
                ))) ==> r is Ok,
    {
        if self.column >= batch.fields.len() {
            return Result::Err(VortexError::OutOfBounds(self.column, batch.fields.len()));
        }
        proof {
            assert(wf(batch.fields@[self.column as int]));
            assert(alen(batch.fields@[self.column as int]) == batch.length as nat);
        }
        let rc = crate::compute::canonicalize(&batch.fields[self.column]);
        let col = match rc {
            Result::Ok(col) => col,
            Result::Err(e) => {
                return Result::Err(e);
            },
        };
        proof {
            if exists|w: crate::dtype::IntWidth|
                #[trigger] has_dtype(
                    batch.fields@[self.column as int],
                    DType::Int(
                        w,
                        crate::dtype::Signedness::Unsigned,
                        Nullability::NonNullable,
                    ),
                ) {
                let w = choose|w: crate::dtype::IntWidth|
                    #[trigger] has_dtype(
                        batch.fields@[self.column as int],
                        DType::Int(
                            w,
                            crate::dtype::Signedness::Unsigned,
                            Nullability::NonNullable,
                        ),
                    );
                assert(has_dtype(
                    col,
                    DType::Int(w, crate::dtype::Signedness::Unsigned, Nullability::NonNullable),
                ));
                assert(col is Primitive && col->Primitive_0.ptype.spec_is_unsigned_int()
                    && col->Primitive_0.validity is None);
            }
        }
        match &col {
            Array::Primitive(p) => {
                if !p.ptype.is_unsigned_int() || p.validity.is_some() {
                    return Result::Err(VortexError::InvalidDType(col.dtype()));
                }
                proof {
                    if viewable(batch.fields@[self.column as int]) {
                        crate::compute::lemma_aview_len(batch.fields@[self.column as int]);
                    }
                }
                let n = p.values.len();
                let mut out: Vec<bool> = Vec::new();
                for i in 0..n
                    invariant
                        out@.len() == i,
                        forall|k: int|
                            0 <= k < i ==> #[trigger] out@[k] == cmp_holds(
                                self.op,
                                p.values@[k],
                                self.literal,
                            ),
                {
                    let v = p.values[i];
                    let b = match self.op {
                        CompareOp::Lt => v < self.literal,
                        CompareOp::Le => v <= self.literal,
                        CompareOp::Eq => v == self.literal,
                        CompareOp::Ge => v >= self.literal,
                        CompareOp::Gt => v > self.literal,
                        CompareOp::Ne => v != self.literal,
                    };
                    out.push(b);
                }
                Result::Ok(Array::Bool(BoolArray { values: out, validity: Option::None }))
            },
            _ => Result::Err(VortexError::NotImplemented),
        }
    }
}


/// A built stream agrees with a parsed struct layout and struct type: one
/// chunked column per field, each leading with one metadata leaf and holding
/// one flat leaf per data chunk, with the stream's names, types and ranges
/// taken from the parse.
pub open spec fn stream_from_parse(
    s: VortexBatchStream,
    l0: Layout,
    d0: DType,
) -> bool {
    &&& l0 is Struct
    &&& d0 is Struct
    &&& {
        let cols = l0->Struct_0@;
        let names = d0->Struct_0@;
        let types = d0->Struct_1@;
        &&& cols.len() == s.columns@.len()
        &&& names.len() == cols.len()
        &&& types.len() == cols.len()
        &&& s.metadata_ranges@.len() == cols.len()
        &&& forall|k: int|
            0 <= k < cols.len() ==> {
                let cl = #[trigger] cols[k];
                &&& cl is Chunked
                &&& cl->Chunked_0@.len() == s.nchunks + 1
                &&& cl->Chunked_0@[0] == Layout::Flat(
                    (s.metadata_ranges@[k]).0,
                    (s.metadata_ranges@[k]).1,
                )
                &&& (forall|j: int|
                    0 <= j < s.nchunks ==> #[trigger] cl->Chunked_0@[j + 1] == Layout::Flat(
                        (s.columns@[k].chunks@[j]).0,
                        (s.columns@[k].chunks@[j]).1,
                    ))
                &&& (s.columns@[k]).name@ == names[k]@
                &&& dtype_matches((s.columns@[k]).dtype, types[k])
                &&& dtype_matches(types[k], (s.columns@[k]).dtype)
            }
    }
}

/// Builds a batch reader over an in-memory file.
pub struct VortexBatchReaderBuilder {
    pub file: Vec<u8>,
    pub projection: Option<Vec<usize>>,
    pub len: Option<u64>,
    pub take_indices: Option<Array>,
    pub row_filter: Option<RowFilter>,
}

/// The streaming state machine: the reader announces the next chunk's byte
/// ranges, suspends while its driver performs the reads, and decodes the
/// buffers into one batch.
pub enum StreamingState {
    Init,
    Reading,
    Exhausted,
}

/// One column of the layout: the per-chunk data ranges, all flat.
pub struct ColumnInfo {
    pub name: Vec<u8>,
    pub dtype: DType,
    pub chunks: Vec<(ByteRange, EncodingKind)>,
}

impl ColumnInfo {
    pub fn new(name: Vec<u8>, dtype: DType, chunks: Vec<(ByteRange, EncodingKind)>) -> (r: Self)
        ensures
            r.name == name,
            r.dtype == dtype,
            r.chunks == chunks,
    {
        Self { name, dtype, chunks }
    }
}

pub struct VortexBatchStream {
    pub columns: Vec<ColumnInfo>,
    pub metadata_ranges: Vec<(ByteRange, EncodingKind)>,
    pub nchunks: usize,
    pub chunk_idx: usize,
    pub take_indices: Option<Array>,
    pub row_filter: RowFilter,
    pub projection: Option<Vec<usize>>,
    pub current_offset: usize,
    pub state: StreamingState,
}

impl VortexBatchReaderBuilder {
    pub fn new(file: Vec<u8>) -> (r: Self)
        ensures
            r.file == file,
            r.projection is None,
            r.len is None,
            r.take_indices is None,
            r.row_filter is None,
    {
        Self {
            file,
            projection: Option::None,
            len: Option::None,
            take_indices: Option::None,
            row_filter: Option::None,
        }
    }

    pub fn with_length(self, len: u64) -> (r: Self)
        ensures
            r == (Self { len: Option::Some(len), ..self }),
    {
        Self { len: Option::Some(len), ..self }
    }

    pub fn with_projection(self, projection: Vec<usize>) -> (r: Self)
        ensures
            r == (Self { projection: Option::Some(projection), ..self }),
    {
        Self { projection: Option::Some(projection), ..self }
    }

    /// Take indices must be a non-nullable integer array.
    pub fn with_take_indices(self, array: Array) -> (r: Self)
        requires
            take_idx_ok(array),
            wf(array),
        ensures
            r == (Self { take_indices: Option::Some(array), ..self }),
    {
        Self { take_indices: Option::Some(array), ..self }
    }

    pub fn with_row_filter(self, row_filter: RowFilter) -> (r: Self)
        ensures
            r == (Self { row_filter: Option::Some(row_filter), ..self }),
    {
        Self { row_filter: Option::Some(row_filter), ..self }
    }

    /// Parses the trailer, footer and schema, and validates the layout
    /// shape: a struct layout of per-column chunked layouts, each leading
    /// with one metadata leaf, all columns with equally many chunks.
    pub fn build(self) -> (r: VortexResult<VortexBatchStream>)
        ensures
            match r {
                Result::Ok(s) => {
                    &&& stream_wf(s)
                    &&& s.chunk_idx == 0
                    &&& s.current_offset == 0
                    &&& s.state is Init
                    &&& s.take_indices == self.take_indices
                    &&& s.projection == self.projection
                    &&& match self.row_filter {
                        Option::Some(f) => s.row_filter == f,
                        Option::None => s.row_filter.filters@.len() == 0,
                    }
                    &&& spec_trailer_ok(self.file@.len() as u64, self.file@, 0)
                    &&& exists|l0: Layout, d0: DType|
                        {
                            let fo = vstd::bytes::spec_u64_from_le_bytes(
                                self.file@.subrange(
                                    self.file@.len() - 12,
                                    self.file@.len() - 4,
                                ),
                            );
                            let so = vstd::bytes::spec_u64_from_le_bytes(
                                self.file@.subrange(
                                    self.file@.len() - FOOTER_TRAILER_SIZE,
                                    self.file@.len() - 12,
                                ),
                            );
                            &&& layout_wf(l0)
                            &&& stream_from_parse(s, l0, d0)
                            &&& self.file@.subrange(
                                fo as int,
                                fo + #[trigger] spec_layout_bytes(l0).len(),
                            ) == spec_layout_bytes(l0)
                            &&& self.file@.subrange(
                                so as int,
                                so + #[trigger] spec_dtype_bytes(d0).len(),
                            ) == spec_dtype_bytes(d0)
                        }
                },
                Result::Err(_) => true,
            },
    {
        let ghost gfile = self.file@;
        let file_len = match self.len {
            Option::Some(l) => l,
            Option::None => self.file.len() as u64,
        };
        if file_len != self.file.len() as u64 {
            return Result::Err(VortexError::Io);
        }
        if self.file.len() < FOOTER_TRAILER_SIZE {
            return Result::Err(VortexError::InvalidSerde);
        }
        let footer = read_footer_from_tail(file_len, self.file, 0)?;
        let layout = footer.layout()?;
        let dt = footer.dtype()?;
        let ghost gl = layout;
        let ghost gd = dt;
        let (names, dtypes) = match dt {
            DType::Struct(names, dtypes, _) => (names, dtypes),
            _ => {
                return Result::Err(VortexError::InvalidDType(dt));
            },
        };
        let col_layouts = match layout {
            Layout::Struct(cs) => cs,
            _ => {
                return Result::Err(VortexError::InvalidSerde);
            },
        };
        if col_layouts.len() != names.len() || col_layouts.len() != dtypes.len() {
            return Result::Err(VortexError::InvalidSerde);
        }
        let mut columns: Vec<ColumnInfo> = Vec::new();
        let mut metadata_ranges: Vec<(ByteRange, EncodingKind)> = Vec::new();
        let mut nchunks: usize = 0;
        let ncols = col_layouts.len();
        let mut idx: usize = 0;
        for ci in 0..ncols
            invariant
                ncols == col_layouts@.len(),
                ncols == names@.len(),
                ncols == dtypes@.len(),
                columns@.len() == ci,
                metadata_ranges@.len() == ci,
                forall|k: int|
                    0 <= k < ci ==> (#[trigger] columns@[k]).chunks@.len() == nchunks as nat,
                forall|k: int, j: int|
                    0 <= k < ci && 0 <= j < nchunks ==> ((#[trigger] columns@[k].chunks@[j]).0).begin
                        <= (columns@[k].chunks@[j].0).end,
                forall|k: int|
                    0 <= k < ci ==> {
                        let cl = #[trigger] col_layouts@[k];
                        &&& cl is Chunked
                        &&& cl->Chunked_0@.len() == nchunks + 1
                        &&& cl->Chunked_0@[0] == Layout::Flat(
                            (metadata_ranges@[k]).0,
                            (metadata_ranges@[k]).1,
                        )
                        &&& (forall|j: int|
                            0 <= j < nchunks ==> #[trigger] cl->Chunked_0@[j + 1] == Layout::Flat(
                                (columns@[k].chunks@[j]).0,
                                (columns@[k].chunks@[j]).1,
                            ))
                        &&& (columns@[k]).name@ == names@[k]@
                        &&& dtype_matches((columns@[k]).dtype, dtypes@[k])
                        &&& dtype_matches(dtypes@[k], (columns@[k]).dtype)
                    },
        {
            let chunk_list = match &col_layouts[ci] {
                Layout::Chunked(children) => children,
                _ => {
                    return Result::Err(VortexError::InvalidSerde);
                },
            };
            if chunk_list.len() == 0 {
                return Result::Err(VortexError::InvalidSerde);
            }
            let mut chunks: Vec<(ByteRange, EncodingKind)> = Vec::new();
            let ghost meta_before = metadata_ranges@;
            for j in 0..chunk_list.len()
                invariant
                    chunk_list@.len() >= 1,
                    chunks@.len() == (if j == 0 {
                        0int
                    } else {
                        j - 1
                    }),
                    metadata_ranges@ == (if j == 0 {
                        meta_before
                    } else {
                        meta_before.push(
                            ((chunk_list@[0])->Flat_0, (chunk_list@[0])->Flat_1),
                        )
                    }),
                    j >= 1 ==> chunk_list@[0] is Flat,
                    forall|k: int|
                        0 <= k < chunks@.len() ==> #[trigger] chunk_list@[k + 1] == Layout::Flat(
                            (chunks@[k]).0,
                            (chunks@[k]).1,
                        ),
                    forall|k: int|
                        0 <= k < chunks@.len() ==> ((#[trigger] chunks@[k]).0).begin <= (
                        chunks@[k].0).end,
            {
                match &chunk_list[j] {
                    Layout::Flat(rng, kind) => {
                        if rng.begin > rng.end {
                            return Result::Err(VortexError::InvalidSerde);
                        }
                        if j == 0 {
                            metadata_ranges.push((*rng, *kind));
                        } else {
                            chunks.push((*rng, *kind));
                        }
                    },
                    _ => {
                        return Result::Err(VortexError::InvalidSerde);
                    },
                }
            }
            if ci == 0 {
                nchunks = chunks.len();
            } else {
                if chunks.len() != nchunks {
                    return Result::Err(VortexError::InvalidSerde);
                }
            }
            let name = clone_vec_copy(&names[ci]);
            let dtype = dtype_clone(&dtypes[ci]);
            columns.push(ColumnInfo::new(name, dtype, chunks));
        }
        let s = VortexBatchStream {
            columns,
            metadata_ranges,
            nchunks,
            chunk_idx: 0,
            take_indices: self.take_indices,
            row_filter: match self.row_filter {
                Option::Some(f) => f,
                Option::None => RowFilter::empty(),
            },
            projection: self.projection,
            current_offset: 0,
            state: StreamingState::Init,
        };
        proof {
            assert(gl->Struct_0@ == col_layouts@);
            assert(stream_from_parse(s, gl, gd));
            assert(exists|l0: Layout, d0: DType|
                {
                    let fo = vstd::bytes::spec_u64_from_le_bytes(
                        gfile.subrange(gfile.len() - 12, gfile.len() - 4),
                    );
                    let so = vstd::bytes::spec_u64_from_le_bytes(
                        gfile.subrange(gfile.len() - FOOTER_TRAILER_SIZE, gfile.len() - 12),
                    );
                    &&& layout_wf(l0)
                    &&& stream_from_parse(s, l0, d0)
                    &&& gfile.subrange(fo as int, fo + #[trigger] spec_layout_bytes(l0).len())
                        == spec_layout_bytes(l0)
                    &&& gfile.subrange(so as int, so + #[trigger] spec_dtype_bytes(d0).len())
                        == spec_dtype_bytes(d0)
                }) by {
                assert(layout_wf(gl) && stream_from_parse(s, gl, gd) && gfile.subrange(
                    vstd::bytes::spec_u64_from_le_bytes(
                        gfile.subrange(gfile.len() - 12, gfile.len() - 4),
                    ) as int,
                    vstd::bytes::spec_u64_from_le_bytes(
                        gfile.subrange(gfile.len() - 12, gfile.len() - 4),
                    ) + spec_layout_bytes(gl).len(),
                ) == spec_layout_bytes(gl) && gfile.subrange(
                    vstd::bytes::spec_u64_from_le_bytes(
                        gfile.subrange(gfile.len() - FOOTER_TRAILER_SIZE, gfile.len() - 12),
                    ) as int,
                    vstd::bytes::spec_u64_from_le_bytes(
                        gfile.subrange(gfile.len() - FOOTER_TRAILER_SIZE, gfile.len() - 12),
                    ) + spec_dtype_bytes(gd).len(),
                ) == spec_dtype_bytes(gd));
            }
        }
        Result::Ok(s)
    }
}

/// The structural invariant of a built stream.
pub open spec fn stream_wf(s: VortexBatchStream) -> bool {
    &&& s.chunk_idx <= s.nchunks
    &&& forall|k: int|
        0 <= k < s.columns@.len() ==> (#[trigger] s.columns@[k]).chunks@.len() == s.nchunks as nat
    &&& forall|k: int, j: int|
        0 <= k < s.columns@.len() && 0 <= j < s.nchunks ==> ((
        #[trigger] s.columns@[k].chunks@[j]).0).begin <= (s.columns@[k].chunks@[j].0).end
}

impl VortexBatchStream {
    /// The top-level logical type of the batches: a non-nullable struct of
    /// the columns' names and types.
    #[verifier::loop_isolation(false)]
    pub fn schema(&self) -> (r: VortexResult<DType>)
        ensures
            match r {
                Result::Ok(d) => match d {
                    DType::Struct(names, dtypes, n) => {
                        &&& n == Nullability::NonNullable
                        &&& names@.len() == self.columns@.len()
                        &&& dtypes@.len() == self.columns@.len()
                        &&& forall|k: int|
                            0 <= k < self.columns@.len() ==> #[trigger] names@[k]@ == (
                            self.columns@[k]).name@
                        &&& forall|k: int|
                            0 <= k < self.columns@.len() ==> dtype_matches(
                                #[trigger] dtypes@[k],
                                self.columns@[k].dtype,
                            ) && dtype_matches(self.columns@[k].dtype, dtypes@[k])
                    },
                    _ => false,
                },
                Result::Err(_) => false,
            },
    {
        let mut names: Vec<Vec<u8>> = Vec::new();
        let mut dtypes: Vec<DType> = Vec::new();
        for i in 0..self.columns.len()
            invariant
                names@.len() == i,
                dtypes@.len() == i,
                forall|k: int|
                    0 <= k < i ==> #[trigger] names@[k]@ == (self.columns@[k]).name@,
                forall|k: int|
                    0 <= k < i ==> dtype_matches(#[trigger] dtypes@[k], self.columns@[k].dtype)
                        && dtype_matches(self.columns@[k].dtype, dtypes@[k]),
        {
            names.push(clone_vec_copy(&self.columns[i].name));
            dtypes.push(dtype_clone(&self.columns[i].dtype));
        }
        Result::Ok(DType::Struct(names, dtypes, Nullability::NonNullable))
    }

    /// The byte ranges of the next chunk, one per column, or nothing when
    /// every chunk has been yielded. Announcing them moves the machine from
    /// `Init` to `Reading`.
    pub fn next_requests(&mut self) -> (r: Option<Vec<ByteRange>>)
        requires
            stream_wf(*old(self)),
        ensures
            stream_wf(*final(self)),
            final(self).columns == old(self).columns,
            final(self).metadata_ranges == old(self).metadata_ranges,
            final(self).nchunks == old(self).nchunks,
            final(self).chunk_idx == old(self).chunk_idx,
            final(self).take_indices == old(self).take_indices,
            final(self).row_filter == old(self).row_filter,
            final(self).projection == old(self).projection,
            final(self).current_offset == old(self).current_offset,
            match r {
                Option::Some(reqs) => {
                    &&& !(old(self).state is Exhausted)
                    &&& old(self).chunk_idx < old(self).nchunks
                    &&& final(self).state is Reading
                    &&& final(self).chunk_idx == old(self).chunk_idx
                    &&& reqs@.len() == old(self).columns@.len()
                    &&& forall|k: int|
                        0 <= k < reqs@.len() ==> (#[trigger] reqs@[k]) == (
                        old(self).columns@[k].chunks@[old(self).chunk_idx as int].0)
                },
                Option::None => {
                    &&& (old(self).state is Exhausted || old(self).chunk_idx == old(self).nchunks)
                    &&& final(self).state is Exhausted
                },
            },
    {
        if matches!(self.state, StreamingState::Exhausted) || self.chunk_idx >= self.nchunks {
            self.state = StreamingState::Exhausted;
            return Option::None;
        }
        let mut reqs: Vec<ByteRange> = Vec::new();
        for k in 0..self.columns.len()
            invariant
                stream_wf(*self),
                self.chunk_idx < self.nchunks,
                reqs@.len() == k,
                forall|q: int|
                    0 <= q < k ==> (#[trigger] reqs@[q]) == (self.columns@[q].chunks@[
                        self.chunk_idx as int
                    ].0),
        {
            reqs.push(self.columns[k].chunks[self.chunk_idx].0);
        }
        self.state = StreamingState::Reading;
        Option::Some(reqs)
    }

    /// Applies the pushed-down take to one batch: the take indices falling
    /// into this batch's row window, in their given order — sorted or not —
    /// shifted to batch-local positions.
    #[verifier::loop_isolation(false)]
    #[verifier::rlimit(100)]
    pub fn take_batch(&mut self, batch: &Array) -> (r: VortexResult<Array>)
        requires
            wf(*batch),
            match old(self).take_indices {
                Option::Some(ix) => wf(ix) && take_idx_ok(ix),
                Option::None => false,
            },
            old(self).current_offset + alen(*batch) <= usize::MAX,
        ensures
            final(self).take_indices == old(self).take_indices,
            final(self).current_offset as int == old(self).current_offset + alen(*batch),
            final(self).columns == old(self).columns,
            final(self).nchunks == old(self).nchunks,
            final(self).chunk_idx == old(self).chunk_idx,
            final(self).state == old(self).state,
            final(self).row_filter == old(self).row_filter,
            final(self).projection == old(self).projection,
            final(self).metadata_ranges == old(self).metadata_ranges,
            crate::compute::takeable(*batch) ==> r is Ok,
            match r {
                Result::Ok(b) => {
                    let vals = (old(self).take_indices->0)->Primitive_0.values@;
                    let o = old(self).current_offset;
                    let win = window_positions(vals, o as int, o + alen(*batch), vals.len() as int);
                    &&& wf(b)
                    &&& alen(b) == win.len()
                    &&& (*batch is Struct ==> b is Struct && {
                        let sa = batch->Struct_0;
                        let sb = b->Struct_0;
                        &&& sb.names@.len() == sa.names@.len()
                        &&& (forall|k: int|
                            0 <= k < sa.names@.len() ==> #[trigger] sb.names@[k]@
                                == sa.names@[k]@)
                        &&& sb.fields@.len() == sa.fields@.len()
                        &&& (forall|k: int|
                            0 <= k < sa.fields@.len() ==> viewable(#[trigger] sa.fields@[k])
                                ==> viewable(sb.fields@[k]) && aview(sb.fields@[k]) == Seq::new(
                                win.len(),
                                |q: int| aview(sa.fields@[k])[win[q] - o],
                            ))
                    })
                },
                Result::Err(_) => true,
            },
    {
        let curr_offset = self.current_offset;
        let blen = batch.len();
        let indices = match &self.take_indices {
            Option::Some(ix) => ix,
            Option::None => {
                proof {
                    assert(false);
                }
                return Result::Err(VortexError::NotImplemented);
            },
        };
        let iv = match indices {
            Array::Primitive(p) => p,
            _ => {
                proof {
                    assert(false);
                }
                return Result::Err(VortexError::NotImplemented);
            },
        };
        self.current_offset = curr_offset + blen;
        let ghost vals = iv.values@;
        let ghost hi = curr_offset + blen;
        let mut shifted_vals: Vec<u64> = Vec::new();
        let m = iv.values.len();
        for t in 0..m
            invariant
                shifted_vals@.len() == window_positions(vals, curr_offset as int, hi, t as int).len(),
                forall|q: int|
                    0 <= q < shifted_vals@.len() ==> #[trigger] shifted_vals@[q] as int
                        == window_positions(vals, curr_offset as int, hi, t as int)[q]
                        - curr_offset,
        {
            let v = iv.values[t];
            if v >= curr_offset as u64 && v < (curr_offset + blen) as u64 {
                shifted_vals.push(v - curr_offset as u64);
            }
        }
        proof {
            lemma_window_positions_in_range(vals, curr_offset as int, hi, vals.len() as int);
        }
        let ix = Array::Primitive(
            PrimitiveArray { ptype: PType::U64, values: shifted_vals, validity: Option::None },
        );
        let ghost win = window_positions(vals, curr_offset as int, hi, vals.len() as int);
        proof {
            assert forall|k: int|
                0 <= k < ix->Primitive_0.values@.len() implies (
            #[trigger] ix->Primitive_0.values@[k] as nat) < alen(*batch) by {
                assert(win[k] < hi);
            }
        }
        let taken = take(batch, &ix)?;
        proof {
            if *batch is Struct {
                let sa = batch->Struct_0;
                let sb = taken->Struct_0;
                assert forall|k: int|
                    0 <= k < sa.fields@.len() implies viewable(#[trigger] sa.fields@[k])
                        ==> viewable(sb.fields@[k]) && aview(sb.fields@[k]) == Seq::new(
                        win.len(),
                        |q: int| aview(sa.fields@[k])[win[q] - curr_offset],
                    ) by {
                    if viewable(sa.fields@[k]) {
                        assert(aview(sb.fields@[k]) =~= Seq::new(
                            win.len(),
                            |q: int| aview(sa.fields@[k])[win[q] - curr_offset],
                        ));
                    }
                }
            }
        }
        Result::Ok(taken)
    }
}

/// The take indices among `vals[..i]` that fall into `[lo, hi)`, in their
/// given order.
pub open spec fn window_positions(vals: Seq<u64>, lo: int, hi: int, i: int) -> Seq<u64>
    decreases i,
{
    if i <= 0 {
        Seq::empty()
    } else if lo <= vals[i - 1] < hi {
        window_positions(vals, lo, hi, i - 1).push(vals[i - 1])
    } else {
        window_positions(vals, lo, hi, i - 1)
    }
}

/// Every window position lies in the window.
pub proof fn lemma_window_positions_in_range(vals: Seq<u64>, lo: int, hi: int, i: int)
    requires
        0 <= i <= vals.len(),
    ensures
        forall|q: int|
            0 <= q < window_positions(vals, lo, hi, i).len() ==> lo
                <= #[trigger] window_positions(vals, lo, hi, i)[q] < hi,
    decreases i,
{
    if i > 0 {
        lemma_window_positions_in_range(vals, lo, hi, i - 1);
        let w = window_positions(vals, lo, hi, i);
        let w0 = window_positions(vals, lo, hi, i - 1);
        assert forall|q: int|
            0 <= q < window_positions(vals, lo, hi, i).len() implies lo
            <= #[trigger] window_positions(vals, lo, hi, i)[q] < hi by {
            if lo <= vals[i - 1] < hi {
                assert(w == w0.push(vals[i - 1]));
                if q < w0.len() {
                    assert(w[q] == w0[q]);
                } else {
                    assert(w[q] == vals[i - 1]);
                }
            } else {
                assert(w == w0);
                assert(w[q] == w0[q]);
            }
        }
    }
}

/// A prefix count is monotone in its threshold.
pub proof fn lemma_count_lt_mono(vals: Seq<u64>, t1: u64, t2: u64, i: int)
    requires
        0 <= i <= vals.len(),
        t1 <= t2,
    ensures
        count_lt(vals, t1, i) <= count_lt(vals, t2, i),
    decreases i,
{
    if i > 0 {
        lemma_count_lt_mono(vals, t1, t2, i - 1);
    }
}

/// A prefix count never exceeds the prefix length.
pub proof fn lemma_count_lt_bound(vals: Seq<u64>, t: u64, i: int)
    requires
        0 <= i <= vals.len(),
    ensures
        count_lt(vals, t, i) <= i,
    decreases i,
{
    if i > 0 {
        lemma_count_lt_bound(vals, t, i - 1);
    }
}



/// One driver buffer holds the serialized form of some persistable array of
/// length `n0`.
pub open spec fn column_decodable(buf: Vec<u8>, n0: nat) -> bool {
    exists|a0: Array|
        wf(a0) && persistable(a0) && alen(a0) == n0 && #[trigger] spec_array_bytes(a0) == buf@
}

/// Every driver buffer holds the serialized form of some persistable array,
/// all of one length `n0`.
pub open spec fn buffers_decodable(buffers: Seq<Vec<u8>>, n0: nat) -> bool {
    forall|k: int| 0 <= k < buffers.len() ==> column_decodable(#[trigger] buffers[k], n0)
}

impl VortexBatchStream {
    /// Consumes the buffers of one chunk — one per column, in column order —
    /// decodes them, assembles the batch, and applies take, row filter and
    /// projection in that order. Moves the machine back to `Init`.
    #[verifier::loop_isolation(false)]
    pub fn feed(&mut self, buffers: Vec<Vec<u8>>) -> (r: VortexResult<Array>)
        requires
            stream_wf(*old(self)),
            old(self).state is Reading,
            old(self).chunk_idx < old(self).nchunks,
            match old(self).take_indices {
                Option::Some(ix) => wf(ix) && take_idx_ok(ix),
                Option::None => true,
            },
        ensures
            stream_wf(*final(self)),
            final(self).columns == old(self).columns,
            final(self).metadata_ranges == old(self).metadata_ranges,
            final(self).nchunks == old(self).nchunks,
            final(self).row_filter == old(self).row_filter,
            final(self).projection == old(self).projection,
            match r {
                Result::Ok(b) => wf(b) && b is Struct && final(self).chunk_idx == old(
                    self,
                ).chunk_idx + 1 && final(self).state is Init,
                Result::Err(_) => final(self).state is Exhausted && final(self).chunk_idx == old(
                    self,
                ).chunk_idx,
            },
            final(self).take_indices is Some <==> old(self).take_indices is Some,
            match (final(self).take_indices, old(self).take_indices) {
                (Option::Some(a), Option::Some(b)) => a == b,
                (Option::None, Option::None) => true,
                _ => false,
            },
            (old(self).take_indices is None && old(self).row_filter.filters@.len() == 0 && old(
                self,
            ).projection is None && r is Ok) ==> {
                let b = r->Ok_0;
                &&& b->Struct_0.names@.len() == old(self).columns@.len()
                &&& b->Struct_0.fields@.len() == old(self).columns@.len()
                &&& (forall|k: int|
                    0 <= k < old(self).columns@.len() ==> #[trigger] b->Struct_0.names@[k]@ == (
                    old(self).columns@[k]).name@)
                &&& (forall|k: int|
                    0 <= k < old(self).columns@.len() ==> decodes_back(
                        Result::Ok(#[trigger] b->Struct_0.fields@[k]),
                        buffers@[k]@,
                        0,
                        buffers@[k]@.len() as int,
                    ))
            },
            (old(self).take_indices is None && old(self).row_filter.filters@.len() == 0 && old(
                self,
            ).projection is None && buffers@.len() == old(self).columns@.len() && (exists|n0: nat|
                #[trigger] buffers_decodable(buffers@, n0))) ==> r is Ok,
            (old(self).take_indices is None && old(self).row_filter.filters@.len() == 0 && r
                is Ok) ==> (match old(self).projection {
                Option::Some(proj) => {
                    let b = r->Ok_0;
                    &&& b->Struct_0.names@.len() == proj@.len()
                    &&& b->Struct_0.fields@.len() == proj@.len()
                    &&& (forall|q: int|
                        0 <= q < proj@.len() ==> (#[trigger] proj@[q] as int) < old(
                            self,
                        ).columns@.len())
                    &&& (forall|q: int|
                        0 <= q < proj@.len() ==> #[trigger] b->Struct_0.names@[q]@ == (old(
                            self,
                        ).columns@[proj@[q] as int]).name@)
                    &&& (forall|q: int|
                        0 <= q < proj@.len() ==> decodes_back(
                            Result::Ok(#[trigger] b->Struct_0.fields@[q]),
                            buffers@[proj@[q] as int]@,
                            0,
                            buffers@[proj@[q] as int]@.len() as int,
                        ))
                },
                Option::None => true,
            }),
    {
        let ghost no_pushdown = self.take_indices is None && self.row_filter.filters@.len() == 0
            && self.projection is None;
        let ghost decodable = buffers@.len() == self.columns@.len() && (exists|n0: nat|
            #[trigger] buffers_decodable(buffers@, n0));
        // A failed read or decode ends the stream: the error is yielded once
        // and the machine stays exhausted unless the chunk completes below.
        self.state = StreamingState::Exhausted;
        if buffers.len() != self.columns.len() {
            return Result::Err(VortexError::Io);
        }
        let mut names: Vec<Vec<u8>> = Vec::new();
        let mut fields: Vec<Array> = Vec::new();
        let mut batch_len: usize = 0;
        let ncols = self.columns.len();
        for k in 0..ncols
            invariant
                ncols == self.columns@.len(),
                buffers@.len() == ncols,
                names@.len() == k,
                fields@.len() == k,
                forall|q: int|
                    0 <= q < k ==> wf(#[trigger] fields@[q]) && alen(fields@[q])
                        == batch_len as nat,
                forall|q: int|
                    0 <= q < k ==> #[trigger] names@[q]@ == (self.columns@[q]).name@,
                forall|q: int|
                    0 <= q < k ==> decodes_back(
                        Result::Ok(#[trigger] fields@[q]),
                        buffers@[q]@,
                        0,
                        buffers@[q]@.len() as int,
                    ),
                decodable ==> (exists|n0: nat| #[trigger] buffers_decodable(buffers@, n0)),
                decodable && k > 0 ==> column_decodable(buffers@[0], batch_len as nat),
        {
            let buf = &buffers[k];
            let rr = decode_array(buf, 0, buf.len());
            proof {
                if decodable {
                    let n0 = choose|n0: nat| #[trigger] buffers_decodable(buffers@, n0);
                    assert(column_decodable(buffers@[k as int], n0));
                    let a0 = choose|a0: Array|
                        wf(a0) && persistable(a0) && alen(a0) == n0 && #[trigger] spec_array_bytes(
                            a0,
                        ) == buffers@[k as int]@;
                    assert(buf@.subrange(0, buf@.len() as int) =~= buf@);
                    assert(rr is Ok && alen(rr->Ok_0) == n0);
                    if k == 0 {
                        assert(column_decodable(buffers@[0], n0));
                    }
                }
            }
            let arr = match rr {
                Result::Ok(a) => a,
                Result::Err(e) => {
                    return Result::Err(e);
                },
            };
            let al = arr.len();
            if k == 0 {
                batch_len = al;
            } else {
                if al != batch_len {
                    proof {
                        if decodable {
                            let n0 = choose|n0: nat| #[trigger] buffers_decodable(buffers@, n0);
                            let a00 = choose|a0: Array|
                                wf(a0) && persistable(a0) && alen(a0) == batch_len as nat
                                    && #[trigger] spec_array_bytes(a0) == buffers@[0]@;
                            assert(column_decodable(buffers@[0], n0));
                            let a01 = choose|a0: Array|
                                wf(a0) && persistable(a0) && alen(a0) == n0
                                    && #[trigger] spec_array_bytes(a0) == buffers@[0]@;
                            assert(buffers@[0]@.subrange(0, buffers@[0]@.len() as int)
                                =~= buffers@[0]@);
                            assert(decodes_back(
                                Result::Ok(fields@[0]),
                                buffers@[0]@,
                                0,
                                buffers@[0]@.len() as int,
                            ));
                            assert(alen(fields@[0]) == alen(a00));
                            assert(alen(fields@[0]) == alen(a01));
                            assert(false);
                        }
                    }
                    return Result::Err(VortexError::InvalidSerde);
                }
            }
            names.push(clone_vec_copy(&self.columns[k].name));
            fields.push(arr);
        }
        let st = StructArray { names, fields, length: batch_len };
        let mut s = Array::Struct(st);
        if self.take_indices.is_some() {
            proof {
                assert(alen(s) == batch_len as nat);
            }
            if self.current_offset > usize::MAX - batch_len {
                return Result::Err(VortexError::Io);
            }
            s = self.take_batch(&s)?;
        }
        let nfilters = self.row_filter.filters.len();
        if nfilters > 0 {
            let st2 = match &s {
                Array::Struct(st2) => st2,
                _ => {
                    return Result::Err(VortexError::InvalidDType(s.dtype()));
                },
            };
            let mut current = self.row_filter.filters[0].evaluate(st2)?;
            for fidx in 1..nfilters
                invariant
                    nfilters == self.row_filter.filters@.len(),
                    wf(current),
                    current is Bool,
                    current->Bool_0.validity is None,
                    s is Struct,
                    wf(s),
                    current->Bool_0.values@.len() == s->Struct_0.length as nat,
            {
                let next = self.row_filter.filters[fidx].evaluate(
                    match &s {
                        Array::Struct(st3) => st3,
                        _ => {
                            return Result::Err(VortexError::NotImplemented);
                        },
                    },
                )?;
                current = crate::compute::and(&current, &next)?;
            }
            proof {
                assert(alen(s) == s->Struct_0.length as nat);
            }
            s = crate::compute::filter(&s, &current)?;
        }
        match &self.projection {
            Option::Some(proj) => {
                let st4 = match s {
                    Array::Struct(st4) => st4,
                    _ => {
                        return Result::Err(VortexError::NotImplemented);
                    },
                };
                let ghost unpushed = old(self).take_indices is None && old(
                    self,
                ).row_filter.filters@.len() == 0;
                proof {
                    if unpushed {
                        assert(st4.names@.len() == old(self).columns@.len());
                        assert(st4.fields@.len() == old(self).columns@.len());
                    }
                }
                let mut pnames: Vec<Vec<u8>> = Vec::new();
                let mut pfields: Vec<Array> = Vec::new();
                for q in 0..proj.len()
                    invariant
                        pnames@.len() == q,
                        pfields@.len() == q,
                        wf(Array::Struct(st4)),
                        forall|t: int|
                            0 <= t < q ==> wf(#[trigger] pfields@[t]) && alen(pfields@[t])
                                == st4.length as nat,
                        forall|t: int| 0 <= t < q ==> (#[trigger] proj@[t] as int) < st4.fields@.len(),
                        unpushed ==> forall|t: int|
                            0 <= t < q ==> #[trigger] pnames@[t]@ == (old(self).columns@[
                                proj@[t] as int
                            ]).name@,
                        unpushed ==> forall|t: int|
                            0 <= t < q ==> decodes_back(
                                Result::Ok(#[trigger] pfields@[t]),
                                buffers@[proj@[t] as int]@,
                                0,
                                buffers@[proj@[t] as int]@.len() as int,
                            ),
                {
                    let col = proj[q];
                    if col >= st4.fields.len() {
                        return Result::Err(VortexError::OutOfBounds(col, st4.fields.len()));
                    }
                    proof {
                        assert(wf(st4.fields@[col as int]));
                        assert(alen(st4.fields@[col as int]) == st4.length as nat);
                    }
                    pnames.push(clone_vec_copy(&st4.names[col]));
                    let dup = crate::compute::array_dup(&st4.fields[col]);
                    proof {
                        if unpushed {
                            assert(decodes_back(
                                Result::Ok(st4.fields@[col as int]),
                                buffers@[col as int]@,
                                0,
                                buffers@[col as int]@.len() as int,
                            ));
                            assert forall|a0: Array|
                                (wf(a0) && persistable(a0) && buffers@[col as int]@.subrange(
                                    0,
                                    buffers@[col as int]@.len() as int,
                                ) == #[trigger] spec_array_bytes(a0)) implies {
                                &&& dup.kind() == a0.kind()
                                &&& alen(dup) == alen(a0)
                                &&& aview(dup) == aview(a0)
                                &&& forall|d: DType| has_dtype(a0, d) ==> #[trigger] has_dtype(
                                    dup,
                                    d,
                                )
                            } by {
                                assert(aview(st4.fields@[col as int]) == aview(a0));
                                assert(viewable(a0)) by {
                                    match a0 {
                                        Array::Primitive(_) => {},
                                        Array::Bool(_) => {},
                                        Array::VarBin(_) => {},
                                        _ => {},
                                    }
                                }
                                assert(viewable(st4.fields@[col as int]));
                                assert forall|d: DType|
                                    has_dtype(a0, d) implies #[trigger] has_dtype(dup, d) by {
                                    assert(has_dtype(st4.fields@[col as int], d));
                                }
                            }
                        }
                    }
                    pfields.push(dup);
                }
                let projected = Array::Struct(
                    StructArray { names: pnames, fields: pfields, length: st4.length },
                );
                self.chunk_idx = self.chunk_idx + 1;
                self.state = StreamingState::Init;
                Result::Ok(projected)
            },
            Option::None => {
                self.chunk_idx = self.chunk_idx + 1;
                self.state = StreamingState::Init;
                Result::Ok(s)
            },
        }
    }
}


/// A decode promise over a copied buffer holds over the original bytes the
/// buffer was copied from.
pub proof fn lemma_decodes_back_shift(
    r: VortexResult<Array>,
    b1: Seq<u8>,
    b2: Seq<u8>,
    pos: int,
    end: int,
)
    requires
        0 <= pos <= end <= b2.len(),
        b1 == b2.subrange(pos, end),
        decodes_back(r, b1, 0, b1.len() as int),
    ensures
        decodes_back(r, b2, pos, end),
{
    assert forall|a0: Array|
        (wf(a0) && persistable(a0) && b2.subrange(pos, end) == #[trigger] spec_array_bytes(a0))
            implies (r is Ok && {
        let b = r->Ok_0;
        &&& b.kind() == a0.kind()
        &&& alen(b) == alen(a0)
        &&& aview(b) == aview(a0)
        &&& forall|d: DType| has_dtype(a0, d) ==> #[trigger] has_dtype(b, d)
    }) by {
        assert(b1.subrange(0, b1.len() as int) =~= b2.subrange(pos, end));
    }
}

/// Drives a stream over an in-memory file: performs each announced read by
/// slicing the file bytes, and collects the yielded batches in chunk order.
#[verifier::loop_isolation(false)]
pub fn read_all(stream: &mut VortexBatchStream, file: &Vec<u8>) -> (r: VortexResult<Vec<Array>>)
    requires
        stream_wf(*old(stream)),
        old(stream).chunk_idx == 0,
        old(stream).state is Init,
        match old(stream).take_indices {
            Option::Some(ix) => wf(ix) && take_idx_ok(ix),
            Option::None => true,
        },
    ensures
        match r {
            Result::Ok(batches) => {
                &&& batches@.len() == old(stream).nchunks as nat
                &&& (forall|k: int| 0 <= k < batches@.len() ==> wf(#[trigger] batches@[k]))
                &&& ((old(stream).take_indices is None && old(
                    stream,
                ).row_filter.filters@.len() == 0 && old(stream).projection is None) ==> forall|
                    k: int,
                |
                    0 <= k < batches@.len() ==> (#[trigger] batches@[k]) is Struct)
            },
            Result::Err(_) => true,
        },
{
    let mut batches: Vec<Array> = Vec::new();
    loop
        invariant
            stream_wf(*stream),
            stream.columns == old(stream).columns,
            stream.nchunks == old(stream).nchunks,
            stream.take_indices == old(stream).take_indices,
            stream.row_filter == old(stream).row_filter,
            stream.projection == old(stream).projection,
            !(stream.state is Exhausted),
            match stream.take_indices {
                Option::Some(ix) => wf(ix) && take_idx_ok(ix),
                Option::None => true,
            },
            batches@.len() == stream.chunk_idx as nat,
            forall|k: int| 0 <= k < batches@.len() ==> wf(#[trigger] batches@[k]),
            forall|k: int| 0 <= k < batches@.len() ==> (#[trigger] batches@[k]) is Struct,
        decreases stream.nchunks - stream.chunk_idx,
    {
        let ghost before = stream.chunk_idx;
        let reqs = match stream.next_requests() {
            Option::Some(reqs) => reqs,
            Option::None => {
                return Result::Ok(batches);
            },
        };
        let mut buffers: Vec<Vec<u8>> = Vec::new();
        for k in 0..reqs.len()
            invariant
                buffers@.len() == k,
                forall|q: int|
                    0 <= q < k ==> (#[trigger] reqs@[q]).begin <= reqs@[q].end && reqs@[q].end
                        <= file@.len(),
                forall|q: int|
                    0 <= q < k ==> #[trigger] buffers@[q]@ == file@.subrange(
                        (reqs@[q].begin) as int,
                        (reqs@[q].end) as int,
                    ),
        {
            let rng = reqs[k];
            if rng.end > file.len() as u64 || rng.begin > rng.end {
                return Result::Err(VortexError::Io);
            }
            let begin = rng.begin as usize;
            let end = rng.end as usize;
            buffers.push(crate::compute::copy_range(file, begin, end));
        }
        let batch = match stream.feed(buffers) {
            Result::Ok(b) => b,
            Result::Err(e) => {
                return Result::Err(e);
            },
        };
        batches.push(batch);
        proof {
            assert(stream.chunk_idx == before + 1);
        }
    }
}


/// Parses a primitive message. See [`decode_array`] for the promises.
#[verifier::loop_isolation(false)]
#[verifier::rlimit(100)]
#[verifier::spinoff_prover]
fn decode_primitive(bytes: &Vec<u8>, pos: usize, end: usize) -> (r: VortexResult<Array>)
    requires
        pos < end,
        end <= bytes@.len(),
        bytes@[pos as int] == 1u8,
    ensures
        match r {
            Result::Ok(b) => wf(b) && persistable(b) && !(b is Struct) && !(b is Chunked),
            Result::Err(VortexError::InvalidSerde) => true,
            Result::Err(_) => false,
        },
        decodes_back(r, bytes@, pos as int, end as int),
{
    let ghost s_of = |a0: Array| spec_array_bytes(a0);
    let blen = bytes.len();
    if end - pos < 10 {
        proof {
            assert forall|a0: Array|
                !(wf(a0) && persistable(a0) && bytes@.subrange(pos as int, end as int)
                    == #[trigger] spec_array_bytes(a0)) by {
                if wf(a0) && persistable(a0) && bytes@.subrange(pos as int, end as int)
                    == spec_array_bytes(a0) {
                    lemma_array_bytes_head(a0);
                    assert(bytes@[pos as int] == spec_array_bytes(a0)[0]);
                    assert(a0 is Primitive);
                    lemma_prim_bytes_shape(a0);
                }
            }
        }
        return Result::Err(VortexError::InvalidSerde);
    }
    let pt = match ptype_from_tag(bytes[pos + 1]) {
        Option::Some(p) => p,
        Option::None => {
            proof {
                assert forall|a0: Array|
                    !(wf(a0) && persistable(a0) && bytes@.subrange(pos as int, end as int)
                        == #[trigger] spec_array_bytes(a0)) by {
                    if wf(a0) && persistable(a0) && bytes@.subrange(pos as int, end as int)
                        == spec_array_bytes(a0) {
                        lemma_array_bytes_head(a0);
                        assert(bytes@[pos as int] == spec_array_bytes(a0)[0]);
                        assert(a0 is Primitive);
                        lemma_prim_bytes_shape(a0);
                        assert(bytes@[pos + 1] == spec_array_bytes(a0)[1]);
                        assert(spec_ptype_tag(a0->Primitive_0.ptype) != bytes@[pos + 1]);
                    }
                }
            }
            return Result::Err(VortexError::InvalidSerde);
        },
    };
    let n64 = read_u64(bytes, pos + 2);
    proof {
        vstd::bytes::lemma_auto_spec_u64_to_from_le_bytes();
    }
    if n64 > ((end - (pos + 10)) / 8) as u64 {
        proof {
            assert forall|a0: Array|
                !(wf(a0) && persistable(a0) && bytes@.subrange(pos as int, end as int)
                    == #[trigger] spec_array_bytes(a0)) by {
                if wf(a0) && persistable(a0) && bytes@.subrange(pos as int, end as int)
                    == spec_array_bytes(a0) {
                    lemma_array_bytes_head(a0);
                    assert(bytes@[pos as int] == spec_array_bytes(a0)[0]);
                    assert(a0 is Primitive);
                    lemma_prim_bytes_shape(a0);
                    let n0 = a0->Primitive_0.values@.len() as int;
                    assert(end - pos == spec_array_bytes(a0).len());
                    assert(bytes@.subrange(pos + 2, pos + 10) =~= spec_array_bytes(a0).subrange(
                        2,
                        10,
                    ));
                    assert(n64 == a0->Primitive_0.values@.len() as u64);
                    assert(8 * n0 + 1 <= end - (pos + 10));
                    assert(n0 <= (end - (pos + 10)) / 8) by (nonlinear_arith)
                        requires
                            8 * n0 + 1 <= end - (pos + 10),
                            n0 >= 0,
                    ;
                }
            }
        }
        return Result::Err(VortexError::InvalidSerde);
    }
    let n = n64 as usize;
    let mut vals: Vec<u64> = Vec::new();
    let mut t: usize = 0;
    proof {
        assert(pos + 10 + n * 8 <= end) by (nonlinear_arith)
            requires
                n <= (end - (pos + 10)) as int / 8,
                pos + 10 <= end,
        ;
    }
    while t < n
        invariant
            pos + 10 + n * 8 <= end,
            end <= bytes@.len(),
            t <= n,
            vals@.len() == t,
            forall|k: int|
                0 <= k < t ==> #[trigger] vals@[k] == vstd::bytes::spec_u64_from_le_bytes(
                    bytes@.subrange(pos + 10 + 8 * k, pos + 10 + 8 * k + 8),
                ),
        decreases n - t,
    {
        proof {
            assert(pos + 10 + t * 8 + 8 <= pos + 10 + n * 8) by (nonlinear_arith)
                requires
                    t < n,
            ;
            assert(pos + 10 + t * 8 == pos + 10 + 8 * (t as int)) by (nonlinear_arith);
        }
        vals.push(read_u64(bytes, pos + 10 + t * 8));
        t = t + 1;
    }
    proof {
        assert(pos + 10 + n * 8 == pos + 10 + 8 * (n as int)) by (nonlinear_arith);
    }
    let vstart = pos + 10 + n * 8;
    let rv = read_validity(bytes, vstart, end, n);
    proof {
        assert forall|a0: Array|
            (wf(a0) && persistable(a0) && bytes@.subrange(pos as int, end as int)
                == #[trigger] spec_array_bytes(a0)) implies a0 is Primitive
            && a0->Primitive_0.values@.len() as u64 == n as u64 && n
            == a0->Primitive_0.values@.len() by {
            lemma_array_bytes_head(a0);
            assert(bytes@[pos as int] == spec_array_bytes(a0)[0]);
            assert(a0 is Primitive);
            lemma_prim_bytes_shape(a0);
            assert(bytes@.subrange(pos + 2, pos + 10) =~= spec_array_bytes(a0).subrange(2, 10));
            assert(n64 == a0->Primitive_0.values@.len() as u64);
            assert(8 * (a0->Primitive_0.values@.len() as int) <= end - pos);
        }
    }
    let (validity, used) = match rv {
        Result::Ok(p) => p,
        Result::Err(e) => {
            proof {
                lemma_prim_validity_segment(bytes@, pos as int, end as int, n as int, rv);
            }
            return Result::Err(VortexError::InvalidSerde);
        },
    };
    if used != end {
        proof {
            lemma_prim_validity_segment(bytes@, pos as int, end as int, n as int, rv);
        }
        return Result::Err(VortexError::InvalidSerde);
    }
    let b = Array::Primitive(PrimitiveArray { ptype: pt, values: vals, validity });
    proof {
        assert forall|a0: Array|
            (wf(a0) && persistable(a0) && bytes@.subrange(pos as int, end as int)
                == #[trigger] spec_array_bytes(a0)) implies {
            &&& b.kind() == a0.kind()
            &&& alen(b) == alen(a0)
            &&& aview(b) == aview(a0)
            &&& forall|d: DType| has_dtype(a0, d) ==> #[trigger] has_dtype(b, d)
        } by {
            lemma_array_bytes_head(a0);
            assert(bytes@[pos as int] == spec_array_bytes(a0)[0]);
            assert(a0 is Primitive);
            lemma_prim_bytes_shape(a0);
            let p0 = a0->Primitive_0;
            let s = spec_array_bytes(a0);
            assert(bytes@.subrange(pos + 2, pos + 10) =~= s.subrange(2, 10));
            assert(n64 == p0.values@.len() as u64);
            assert(8 * (p0.values@.len() as int) <= end - pos);
            assert(n as int == p0.values@.len() as int);
            assert forall|k: int| 0 <= k < n implies #[trigger] vals@[k] == p0.values@[k] by {
                assert(bytes@.subrange(pos + 10 + 8 * k, pos + 10 + 8 * k + 8) =~= s.subrange(
                    10 + 8 * k,
                    10 + 8 * k + 8,
                ));
            }
            assert(vals@ =~= p0.values@);
            assert(bytes@.subrange(
                pos + 10 + 8 * (n as int),
                pos + 10 + 8 * (n as int) + spec_validity_bytes(p0.validity).len(),
            ) =~= spec_validity_bytes(p0.validity));
            assert(crate::array::same_validity(validity, p0.validity));
            assert(pt == p0.ptype);
            assert(crate::array::validity_nullability(validity)
                == crate::array::validity_nullability(p0.validity));
            assert(aview(b) =~= aview(a0));
        }
    }
    Result::Ok(b)
}

/// Relates a failed or short validity read to the absence of any matching
/// primitive message: under a matching message the mask segment parses and
/// consumes exactly to the end.
proof fn lemma_prim_validity_segment(
    bytes: Seq<u8>,
    pos: int,
    end: int,
    n: int,
    rv: VortexResult<(Option<Vec<bool>>, usize)>,
)
    requires
        0 <= pos,
        pos + 10 + 8 * n <= end <= bytes.len(),
        bytes[pos] == 1u8,
        forall|v0: Option<Vec<bool>>|
            #![trigger spec_validity_bytes(v0)]
            (crate::array::validity_len_ok(v0, n) && pos + 10 + 8 * n + spec_validity_bytes(
                v0,
            ).len() <= end && bytes.subrange(
                pos + 10 + 8 * n,
                pos + 10 + 8 * n + spec_validity_bytes(v0).len(),
            ) == spec_validity_bytes(v0)) ==> (rv is Ok && (rv->Ok_0).1 == pos + 10 + 8 * n
                + spec_validity_bytes(v0).len()),
        rv is Err || (rv->Ok_0).1 != end,
        forall|a0: Array|
            (wf(a0) && persistable(a0) && bytes.subrange(pos, end) == #[trigger] spec_array_bytes(
                a0,
            )) ==> a0 is Primitive && a0->Primitive_0.values@.len() as u64 == n as u64 && n
                == a0->Primitive_0.values@.len(),
    ensures
        forall|a0: Array|
            !(wf(a0) && persistable(a0) && bytes.subrange(pos, end) == #[trigger] spec_array_bytes(
                a0,
            )),
{
    assert forall|a0: Array|
        !(wf(a0) && persistable(a0) && bytes.subrange(pos, end) == #[trigger] spec_array_bytes(
            a0,
        )) by {
        if wf(a0) && persistable(a0) && bytes.subrange(pos, end) == spec_array_bytes(a0) {
            lemma_prim_bytes_shape(a0);
            let p0 = a0->Primitive_0;
            let s = spec_array_bytes(a0);
            assert(bytes.subrange(
                pos + 10 + 8 * n,
                pos + 10 + 8 * n + spec_validity_bytes(p0.validity).len(),
            ) =~= spec_validity_bytes(p0.validity));
            assert(crate::array::validity_len_ok(p0.validity, n));
            assert(rv is Ok && (rv->Ok_0).1 == pos + 10 + 8 * n + spec_validity_bytes(
                p0.validity,
            ).len());
            assert((rv->Ok_0).1 == end);
        }
    }
}


/// Parses a boolean message. See [`decode_array`] for the promises.
#[verifier::loop_isolation(false)]
#[verifier::rlimit(100)]
#[verifier::spinoff_prover]
fn decode_bool(bytes: &Vec<u8>, pos: usize, end: usize) -> (r: VortexResult<Array>)
    requires
        pos < end,
        end <= bytes@.len(),
        bytes@[pos as int] == 2u8,
    ensures
        match r {
            Result::Ok(b) => wf(b) && persistable(b) && !(b is Struct) && !(b is Chunked),
            Result::Err(VortexError::InvalidSerde) => true,
            Result::Err(_) => false,
        },
        decodes_back(r, bytes@, pos as int, end as int),
{
    if end - pos < 9 {
        proof {
            assert forall|a0: Array|
                !(wf(a0) && persistable(a0) && bytes@.subrange(pos as int, end as int)
                    == #[trigger] spec_array_bytes(a0)) by {
                if wf(a0) && persistable(a0) && bytes@.subrange(pos as int, end as int)
                    == spec_array_bytes(a0) {
                    lemma_array_bytes_head(a0);
                    assert(bytes@[pos as int] == spec_array_bytes(a0)[0]);
                    assert(a0 is Bool);
                    lemma_bool_bytes_shape(a0);
                }
            }
        }
        return Result::Err(VortexError::InvalidSerde);
    }
    let n64 = read_u64(bytes, pos + 1);
    proof {
        vstd::bytes::lemma_auto_spec_u64_to_from_le_bytes();
    }
    if n64 > (end - (pos + 9)) as u64 {
        proof {
            assert forall|a0: Array|
                !(wf(a0) && persistable(a0) && bytes@.subrange(pos as int, end as int)
                    == #[trigger] spec_array_bytes(a0)) by {
                if wf(a0) && persistable(a0) && bytes@.subrange(pos as int, end as int)
                    == spec_array_bytes(a0) {
                    lemma_array_bytes_head(a0);
                    assert(bytes@[pos as int] == spec_array_bytes(a0)[0]);
                    assert(a0 is Bool);
                    lemma_bool_bytes_shape(a0);
                    assert(bytes@.subrange(pos + 1, pos + 9) =~= spec_array_bytes(a0).subrange(
                        1,
                        9,
                    ));
                    assert(n64 == a0->Bool_0.values@.len() as u64);
                }
            }
        }
        return Result::Err(VortexError::InvalidSerde);
    }
    let n = n64 as usize;
    let mut vals: Vec<bool> = Vec::new();
    let mut t: usize = 0;
    while t < n
        invariant
            pos + 9 + n <= end,
            end <= bytes@.len(),
            t <= n,
            vals@.len() == t,
            forall|k: int|
                0 <= k < t ==> bytes@[pos + 9 + k] == (if #[trigger] vals@[k] {
                    1u8
                } else {
                    0u8
                }),
        decreases n - t,
    {
        let byte = bytes[pos + 9 + t];
        if byte > 1 {
            proof {
                assert forall|a0: Array|
                    !(wf(a0) && persistable(a0) && bytes@.subrange(pos as int, end as int)
                        == #[trigger] spec_array_bytes(a0)) by {
                    if wf(a0) && persistable(a0) && bytes@.subrange(pos as int, end as int)
                        == spec_array_bytes(a0) {
                        lemma_array_bytes_head(a0);
                        assert(bytes@[pos as int] == spec_array_bytes(a0)[0]);
                        assert(a0 is Bool);
                        lemma_bool_bytes_shape(a0);
                        assert(bytes@.subrange(pos + 1, pos + 9) =~= spec_array_bytes(a0).subrange(
                            1,
                            9,
                        ));
                        assert(n == a0->Bool_0.values@.len());
                        assert(bytes@[pos + 9 + t] == spec_array_bytes(a0)[9 + t]);
                    }
                }
            }
            return Result::Err(VortexError::InvalidSerde);
        }
        vals.push(byte == 1);
        t = t + 1;
    }
    let vstart = pos + 9 + n;
    let rv = read_validity(bytes, vstart, end, n);
    proof {
        assert forall|a0: Array|
            (wf(a0) && persistable(a0) && bytes@.subrange(pos as int, end as int)
                == #[trigger] spec_array_bytes(a0)) implies a0 is Bool && n
            == a0->Bool_0.values@.len() by {
            lemma_array_bytes_head(a0);
            assert(bytes@[pos as int] == spec_array_bytes(a0)[0]);
            assert(a0 is Bool);
            lemma_bool_bytes_shape(a0);
            assert(bytes@.subrange(pos + 1, pos + 9) =~= spec_array_bytes(a0).subrange(1, 9));
            assert(n64 == a0->Bool_0.values@.len() as u64);
        }
    }
    let (validity, used) = match rv {
        Result::Ok(p) => p,
        Result::Err(e) => {
            proof {
                lemma_bool_validity_segment(bytes@, pos as int, end as int, n as int, rv);
            }
            return Result::Err(VortexError::InvalidSerde);
        },
    };
    if used != end {
        proof {
            lemma_bool_validity_segment(bytes@, pos as int, end as int, n as int, rv);
        }
        return Result::Err(VortexError::InvalidSerde);
    }
    let b = Array::Bool(BoolArray { values: vals, validity });
    proof {
        assert forall|a0: Array|
            (wf(a0) && persistable(a0) && bytes@.subrange(pos as int, end as int)
                == #[trigger] spec_array_bytes(a0)) implies {
            &&& b.kind() == a0.kind()
            &&& alen(b) == alen(a0)
            &&& aview(b) == aview(a0)
            &&& forall|d: DType| has_dtype(a0, d) ==> #[trigger] has_dtype(b, d)
        } by {
            lemma_array_bytes_head(a0);
            assert(bytes@[pos as int] == spec_array_bytes(a0)[0]);
            assert(a0 is Bool);
            lemma_bool_bytes_shape(a0);
            let b0 = a0->Bool_0;
            let s = spec_array_bytes(a0);
            assert(bytes@.subrange(pos + 1, pos + 9) =~= s.subrange(1, 9));
            assert(n == b0.values@.len());
            assert forall|k: int| 0 <= k < n implies #[trigger] vals@[k] == b0.values@[k] by {
                assert(bytes@[pos + 9 + k] == s[9 + k]);
            }
            assert(vals@ =~= b0.values@);
            assert(bytes@.subrange(
                pos + 9 + n as int,
                pos + 9 + n as int + spec_validity_bytes(b0.validity).len(),
            ) =~= spec_validity_bytes(b0.validity));
            assert(crate::array::same_validity(validity, b0.validity));
            assert(crate::array::validity_nullability(validity)
                == crate::array::validity_nullability(b0.validity));
            assert(aview(b) =~= aview(a0));
        }
    }
    Result::Ok(b)
}

/// As [`lemma_prim_validity_segment`], for boolean messages.
proof fn lemma_bool_validity_segment(
    bytes: Seq<u8>,
    pos: int,
    end: int,
    n: int,
    rv: VortexResult<(Option<Vec<bool>>, usize)>,
)
    requires
        0 <= pos,
        pos + 9 + n <= end <= bytes.len(),
        bytes[pos] == 2u8,
        forall|v0: Option<Vec<bool>>|
            #![trigger spec_validity_bytes(v0)]
            (crate::array::validity_len_ok(v0, n) && pos + 9 + n + spec_validity_bytes(v0).len()
                <= end && bytes.subrange(
                pos + 9 + n,
                pos + 9 + n + spec_validity_bytes(v0).len(),
            ) == spec_validity_bytes(v0)) ==> (rv is Ok && (rv->Ok_0).1 == pos + 9 + n
                + spec_validity_bytes(v0).len()),
        rv is Err || (rv->Ok_0).1 != end,
        forall|a0: Array|
            (wf(a0) && persistable(a0) && bytes.subrange(pos, end) == #[trigger] spec_array_bytes(
                a0,
            )) ==> a0 is Bool && n == a0->Bool_0.values@.len(),
    ensures
        forall|a0: Array|
            !(wf(a0) && persistable(a0) && bytes.subrange(pos, end) == #[trigger] spec_array_bytes(
                a0,
            )),
{
    assert forall|a0: Array|
        !(wf(a0) && persistable(a0) && bytes.subrange(pos, end) == #[trigger] spec_array_bytes(
            a0,
        )) by {
        if wf(a0) && persistable(a0) && bytes.subrange(pos, end) == spec_array_bytes(a0) {
            lemma_bool_bytes_shape(a0);
            let b0 = a0->Bool_0;
            assert(bytes.subrange(
                pos + 9 + n,
                pos + 9 + n + spec_validity_bytes(b0.validity).len(),
            ) =~= spec_validity_bytes(b0.validity));
            assert(crate::array::validity_len_ok(b0.validity, n));
            assert(rv is Ok && (rv->Ok_0).1 == pos + 9 + n + spec_validity_bytes(
                b0.validity,
            ).len());
            assert((rv->Ok_0).1 == end);
        }
    }
}

/// Parses a bitmap message. See [`decode_array`] for the promises.
#[verifier::loop_isolation(false)]
#[verifier::rlimit(100)]
#[verifier::spinoff_prover]
fn decode_roaring(bytes: &Vec<u8>, pos: usize, end: usize) -> (r: VortexResult<Array>)
    requires
        pos < end,
        end <= bytes@.len(),
        bytes@[pos as int] == 9u8,
    ensures
        match r {
            Result::Ok(b) => wf(b) && persistable(b) && !(b is Struct) && !(b is Chunked),
            Result::Err(VortexError::InvalidSerde) => true,
            Result::Err(_) => false,
        },
        decodes_back(r, bytes@, pos as int, end as int),
{
    if end - pos < 17 {
        proof {
            assert forall|a0: Array|
                !(wf(a0) && persistable(a0) && bytes@.subrange(pos as int, end as int)
                    == #[trigger] spec_array_bytes(a0)) by {
                if wf(a0) && persistable(a0) && bytes@.subrange(pos as int, end as int)
                    == spec_array_bytes(a0) {
                    lemma_array_bytes_head(a0);
                    assert(bytes@[pos as int] == spec_array_bytes(a0)[0]);
                    assert(a0 is RoaringBool);
                    lemma_roaring_bytes_shape(a0);
                }
            }
        }
        return Result::Err(VortexError::InvalidSerde);
    }
    let n64 = read_u64(bytes, pos + 1);
    let bl64 = read_u64(bytes, pos + 9);
    proof {
        vstd::bytes::lemma_auto_spec_u64_to_from_le_bytes();
    }
    let ghost roaring_facts = |a0: Array|
        {
            &&& a0 is RoaringBool
            &&& n64 == a0->RoaringBool_0.length as u64
            &&& bl64 == crate::bitmap::bitmap_bytes(a0->RoaringBool_0.bitmap).len() as u64
        };
    proof {
        assert forall|a0: Array|
            (wf(a0) && persistable(a0) && bytes@.subrange(pos as int, end as int)
                == #[trigger] spec_array_bytes(a0)) implies roaring_facts(a0) && end - pos == 17
            + crate::bitmap::bitmap_bytes(a0->RoaringBool_0.bitmap).len() by {
            lemma_array_bytes_head(a0);
            assert(bytes@[pos as int] == spec_array_bytes(a0)[0]);
            assert(a0 is RoaringBool);
            lemma_roaring_bytes_shape(a0);
            assert(bytes@.subrange(pos + 1, pos + 9) =~= spec_array_bytes(a0).subrange(1, 9));
            assert(bytes@.subrange(pos + 9, pos + 17) =~= spec_array_bytes(a0).subrange(9, 17));
        }
    }
    if n64 > u32::MAX as u64 || bl64 != (end - (pos + 17)) as u64 {
        return Result::Err(VortexError::InvalidSerde);
    }
    let bl = bl64 as usize;
    let mut bb: Vec<u8> = Vec::new();
    let mut t: usize = 0;
    while t < bl
        invariant
            pos + 17 + bl <= end,
            end <= bytes@.len(),
            t <= bl,
            bb@ == bytes@.subrange(pos + 17, pos + 17 + t as int),
        decreases bl - t,
    {
        bb.push(bytes[pos + 17 + t]);
        t = t + 1;
        proof {
            assert(bb@ =~= bytes@.subrange(pos + 17, pos + 17 + t as int));
        }
    }
    let bm = match crate::bitmap::bitmap_try_deserialize(&bb) {
        Option::Some(b) => b,
        Option::None => {
            proof {
                assert forall|a0: Array|
                    !(wf(a0) && persistable(a0) && bytes@.subrange(pos as int, end as int)
                        == #[trigger] spec_array_bytes(a0)) by {
                    if wf(a0) && persistable(a0) && bytes@.subrange(pos as int, end as int)
                        == spec_array_bytes(a0) {
                        lemma_roaring_bytes_shape(a0);
                        assert(bb@ =~= crate::bitmap::bitmap_bytes(a0->RoaringBool_0.bitmap));
                    }
                }
            }
            return Result::Err(VortexError::InvalidSerde);
        },
    };
    let n = n64 as usize;
    let positions = crate::bitmap::bitmap_to_vec(&bm);
    proof {
        vstd::seq_lib::seq_to_set_is_finite(positions@);
    }
    for i in 0..positions.len()
        invariant
            forall|k: int| 0 <= k < i ==> (#[trigger] positions@[k] as nat) < n as nat,
    {
        if positions[i] as u64 >= n as u64 {
            proof {
                assert forall|a0: Array|
                    !(wf(a0) && persistable(a0) && bytes@.subrange(pos as int, end as int)
                        == #[trigger] spec_array_bytes(a0)) by {
                    if wf(a0) && persistable(a0) && bytes@.subrange(pos as int, end as int)
                        == spec_array_bytes(a0) {
                        lemma_roaring_bytes_shape(a0);
                        assert(bb@ =~= crate::bitmap::bitmap_bytes(a0->RoaringBool_0.bitmap));
                        assert(crate::bitmap::bitmap_elems(bm) == crate::bitmap::bitmap_elems(
                            a0->RoaringBool_0.bitmap,
                        ));
                        assert(crate::bitmap::bitmap_elems(bm).contains(
                            positions@[i as int],
                        ));
                        assert((positions@[i as int] as nat) < a0->RoaringBool_0.length as nat);
                    }
                }
            }
            return Result::Err(VortexError::InvalidSerde);
        }
    }
    let b = Array::RoaringBool(crate::array::RoaringBoolArray { bitmap: bm, length: n });
    proof {
        assert forall|a0: Array|
            (wf(a0) && persistable(a0) && bytes@.subrange(pos as int, end as int)
                == #[trigger] spec_array_bytes(a0)) implies {
            &&& b.kind() == a0.kind()
            &&& alen(b) == alen(a0)
            &&& aview(b) == aview(a0)
            &&& forall|d: DType| has_dtype(a0, d) ==> #[trigger] has_dtype(b, d)
        } by {
            lemma_roaring_bytes_shape(a0);
            assert(bb@ =~= crate::bitmap::bitmap_bytes(a0->RoaringBool_0.bitmap));
            assert(crate::bitmap::bitmap_elems(bm) == crate::bitmap::bitmap_elems(
                a0->RoaringBool_0.bitmap,
            ));
            assert(aview(b) =~= aview(a0));
        }
    }
    Result::Ok(b)
}


/// Parses the head of a byte-string message: the flavor byte, the offsets,
/// and the payload, stopping before the validity mask.
#[verifier::loop_isolation(false)]
#[verifier::rlimit(100)]
#[verifier::spinoff_prover]
fn decode_varbin_parts(bytes: &Vec<u8>, pos: usize, end: usize) -> (r: VortexResult<
    (bool, Vec<usize>, Vec<u8>, usize),
>)
    requires
        pos < end,
        end <= bytes@.len(),
        bytes@[pos as int] == 3u8,
    ensures
        match r {
            Result::Ok((u, offsets, payload, vstart)) => {
                &&& pos < vstart <= end
                &&& offsets@.len() >= 1
                &&& offsets@[0] == 0
                &&& offsets@[offsets@.len() - 1] == payload@.len()
                &&& (forall|k: int|
                    0 <= k < offsets@.len() - 1 ==> #[trigger] offsets@[k] <= offsets@[k + 1])
                &&& vstart as int == pos + 10 + 8 * (offsets@.len() as int) + 8 + payload@.len()
                &&& (forall|a0: Array|
                    (wf(a0) && persistable(a0) && bytes@.subrange(pos as int, end as int)
                        == #[trigger] spec_array_bytes(a0)) ==> (a0 is VarBin && u
                        == a0->VarBin_0.is_utf8 && offsets@.len() == a0->VarBin_0.offsets@.len()
                        && payload@ == a0->VarBin_0.bytes@ && (forall|k: int|
                        0 <= k < offsets@.len() ==> #[trigger] offsets@[k] as int
                            == a0->VarBin_0.offsets@[k] as int)))
            },
            Result::Err(VortexError::InvalidSerde) => forall|a0: Array|
                !(wf(a0) && persistable(a0) && bytes@.subrange(pos as int, end as int)
                    == #[trigger] spec_array_bytes(a0)),
            Result::Err(_) => false,
        },
{
    if end - pos < 10 {
        proof {
            assert forall|a0: Array|
                !(wf(a0) && persistable(a0) && bytes@.subrange(pos as int, end as int)
                    == #[trigger] spec_array_bytes(a0)) by {
                if wf(a0) && persistable(a0) && bytes@.subrange(pos as int, end as int)
                    == spec_array_bytes(a0) {
                    lemma_array_bytes_head(a0);
                    assert(bytes@[pos as int] == spec_array_bytes(a0)[0]);
                    assert(a0 is VarBin);
                    lemma_varbin_bytes_shape(a0);
                }
            }
        }
        return Result::Err(VortexError::InvalidSerde);
    }
    let is_utf8 = bytes[pos + 1] == 1;
    let no64 = read_u64(bytes, pos + 2);
    proof {
        vstd::bytes::lemma_auto_spec_u64_to_from_le_bytes();
        assert forall|a0: Array|
            (wf(a0) && persistable(a0) && bytes@.subrange(pos as int, end as int)
                == #[trigger] spec_array_bytes(a0)) implies (a0 is VarBin && no64
            == a0->VarBin_0.offsets@.len() as u64 && is_utf8 == a0->VarBin_0.is_utf8 && 8 * (
        a0->VarBin_0.offsets@.len() as int) + 9 <= end - (pos + 10)) by {
            lemma_array_bytes_head(a0);
            assert(bytes@[pos as int] == spec_array_bytes(a0)[0]);
            assert(a0 is VarBin);
            lemma_varbin_bytes_shape(a0);
            assert(bytes@.subrange(pos + 2, pos + 10) =~= spec_array_bytes(a0).subrange(2, 10));
            assert(bytes@[pos + 1] == spec_array_bytes(a0)[1]);
        }
    }
    if no64 == 0 || no64 > ((end - (pos + 10)) / 8) as u64 {
        proof {
            assert forall|a0: Array|
                !(wf(a0) && persistable(a0) && bytes@.subrange(pos as int, end as int)
                    == #[trigger] spec_array_bytes(a0)) by {
                if wf(a0) && persistable(a0) && bytes@.subrange(pos as int, end as int)
                    == spec_array_bytes(a0) {
                    let no0 = a0->VarBin_0.offsets@.len() as int;
                    assert(no0 <= (end - (pos + 10)) / 8) by (nonlinear_arith)
                        requires
                            8 * no0 + 9 <= end - (pos + 10),
                            no0 >= 0,
                    ;
                }
            }
        }
        return Result::Err(VortexError::InvalidSerde);
    }
    let no = no64 as usize;
    proof {
        assert(pos + 10 + no * 8 <= end) by (nonlinear_arith)
            requires
                no <= (end - (pos + 10)) as int / 8,
                pos + 10 <= end,
        ;
    }
    let mut offsets: Vec<usize> = Vec::new();
    let mut t: usize = 0;
    while t < no
        invariant
            pos + 10 + no * 8 <= end,
            end <= bytes@.len(),
            t <= no,
            offsets@.len() == t,
            forall|k: int|
                0 <= k < t ==> #[trigger] offsets@[k] as u64
                    == vstd::bytes::spec_u64_from_le_bytes(
                    bytes@.subrange(pos + 10 + 8 * k, pos + 10 + 8 * k + 8),
                ),
        decreases no - t,
    {
        proof {
            assert(pos + 10 + t * 8 + 8 <= pos + 10 + no * 8) by (nonlinear_arith)
                requires
                    t < no,
            ;
            assert(pos + 10 + t * 8 == pos + 10 + 8 * (t as int)) by (nonlinear_arith);
        }
        let ov = read_u64(bytes, pos + 10 + t * 8);
        if ov > usize::MAX as u64 {
            proof {
                assert forall|a0: Array|
                    !(wf(a0) && persistable(a0) && bytes@.subrange(pos as int, end as int)
                        == #[trigger] spec_array_bytes(a0)) by {
                    if wf(a0) && persistable(a0) && bytes@.subrange(pos as int, end as int)
                        == spec_array_bytes(a0) {
                        lemma_varbin_bytes_shape(a0);
                        assert(bytes@.subrange(pos + 10 + 8 * (t as int), pos + 10 + 8 * (
                        t as int) + 8) =~= spec_array_bytes(a0).subrange(
                            10 + 8 * (t as int),
                            10 + 8 * (t as int) + 8,
                        ));
                        assert(ov == a0->VarBin_0.offsets@[t as int] as u64);
                    }
                }
            }
            return Result::Err(VortexError::InvalidSerde);
        }
        offsets.push(ov as usize);
        t = t + 1;
    }
    proof {
        assert(pos + 10 + no * 8 == pos + 10 + 8 * (no as int)) by (nonlinear_arith);
    }
    let cur = pos + 10 + no * 8;
    if end - cur < 8 {
        proof {
            assert forall|a0: Array|
                !(wf(a0) && persistable(a0) && bytes@.subrange(pos as int, end as int)
                    == #[trigger] spec_array_bytes(a0)) by {
                if wf(a0) && persistable(a0) && bytes@.subrange(pos as int, end as int)
                    == spec_array_bytes(a0) {
                    lemma_varbin_bytes_shape(a0);
                }
            }
        }
        return Result::Err(VortexError::InvalidSerde);
    }
    let nb64 = read_u64(bytes, cur);
    proof {
        assert forall|a0: Array|
            (wf(a0) && persistable(a0) && bytes@.subrange(pos as int, end as int)
                == #[trigger] spec_array_bytes(a0)) implies (nb64
            == a0->VarBin_0.bytes@.len() as u64 && (a0->VarBin_0.bytes@.len() as int) + 1 <= end
            - (cur + 8)) by {
            lemma_varbin_bytes_shape(a0);
            assert(bytes@.subrange(cur as int, cur + 8) =~= spec_array_bytes(a0).subrange(
                10 + 8 * (no as int),
                10 + 8 * (no as int) + 8,
            ));
        }
    }
    if nb64 > (end - (cur + 8)) as u64 {
        return Result::Err(VortexError::InvalidSerde);
    }
    let nb = nb64 as usize;
    let mut payload: Vec<u8> = Vec::new();
    let mut t2: usize = 0;
    while t2 < nb
        invariant
            cur + 8 + nb <= end,
            end <= bytes@.len(),
            t2 <= nb,
            payload@ == bytes@.subrange(cur + 8, cur + 8 + t2 as int),
        decreases nb - t2,
    {
        payload.push(bytes[cur + 8 + t2]);
        t2 = t2 + 1;
        proof {
            assert(payload@ =~= bytes@.subrange(cur + 8, cur + 8 + t2 as int));
        }
    }
    proof {
        assert forall|a0: Array|
            (wf(a0) && persistable(a0) && bytes@.subrange(pos as int, end as int)
                == #[trigger] spec_array_bytes(a0)) implies (payload@ == a0->VarBin_0.bytes@
            && forall|k: int|
            0 <= k < no ==> #[trigger] offsets@[k] as int == a0->VarBin_0.offsets@[k] as int) by {
            lemma_varbin_bytes_shape(a0);
            let v0 = a0->VarBin_0;
            let s = spec_array_bytes(a0);
            assert(payload@ =~= bytes@.subrange(cur + 8, cur + 8 + nb as int));
            assert(bytes@.subrange(cur + 8, cur + 8 + nb as int) =~= s.subrange(
                10 + 8 * (no as int) + 8,
                10 + 8 * (no as int) + 8 + nb as int,
            ));
            assert forall|k: int|
                0 <= k < no implies #[trigger] offsets@[k] as int == v0.offsets@[k] as int by {
                assert(bytes@.subrange(pos + 10 + 8 * k, pos + 10 + 8 * k + 8) =~= s.subrange(
                    10 + 8 * k,
                    10 + 8 * k + 8,
                ));
            }
        }
    }
    if offsets[0] != 0 || offsets[no - 1] != nb {
        return Result::Err(VortexError::InvalidSerde);
    }
    let mut t3: usize = 0;
    while t3 < no - 1
        invariant
            no == offsets@.len(),
            no >= 1,
            t3 <= no - 1,
            forall|k: int| 0 <= k < t3 ==> #[trigger] offsets@[k] <= offsets@[k + 1],
        decreases no - 1 - t3,
    {
        if offsets[t3] > offsets[t3 + 1] {
            proof {
                assert forall|a0: Array|
                    !(wf(a0) && persistable(a0) && bytes@.subrange(pos as int, end as int)
                        == #[trigger] spec_array_bytes(a0)) by {
                    if wf(a0) && persistable(a0) && bytes@.subrange(pos as int, end as int)
                        == spec_array_bytes(a0) {
                        let v0 = a0->VarBin_0;
                        assert(v0.offsets@[t3 as int] <= v0.offsets@[t3 as int + 1]);
                        assert(offsets@[t3 as int] as int == v0.offsets@[t3 as int] as int);
                        assert(offsets@[t3 as int + 1] as int == v0.offsets@[t3 as int + 1] as int);
                    }
                }
            }
            return Result::Err(VortexError::InvalidSerde);
        }
        t3 = t3 + 1;
    }
    Result::Ok((is_utf8, offsets, payload, cur + 8 + nb))
}

/// Parses a byte-string message. See [`decode_array`] for the promises.
#[verifier::loop_isolation(false)]
#[verifier::rlimit(100)]
#[verifier::spinoff_prover]
fn decode_varbin(bytes: &Vec<u8>, pos: usize, end: usize) -> (r: VortexResult<Array>)
    requires
        pos < end,
        end <= bytes@.len(),
        bytes@[pos as int] == 3u8,
    ensures
        match r {
            Result::Ok(b) => wf(b) && persistable(b) && !(b is Struct) && !(b is Chunked),
            Result::Err(VortexError::InvalidSerde) => true,
            Result::Err(_) => false,
        },
        decodes_back(r, bytes@, pos as int, end as int),
{
    let (is_utf8, offsets, payload, vstart) = match decode_varbin_parts(bytes, pos, end) {
        Result::Ok(p) => p,
        Result::Err(e) => {
            return Result::Err(VortexError::InvalidSerde);
        },
    };
    let no = offsets.len();
    let rv = read_validity(bytes, vstart, end, no - 1);
    proof {
        assert forall|a0: Array|
            (wf(a0) && persistable(a0) && bytes@.subrange(pos as int, end as int)
                == #[trigger] spec_array_bytes(a0)) implies (rv is Ok && (rv->Ok_0).1
            == end as int && crate::array::same_validity((rv->Ok_0).0, a0->VarBin_0.validity)) by {
            lemma_varbin_bytes_shape(a0);
            let v0 = a0->VarBin_0;
            let vb = spec_validity_bytes(v0.validity);
            assert(bytes@.subrange(vstart as int, vstart as int + vb.len()) =~= vb);
            assert(crate::array::validity_len_ok(v0.validity, (no - 1) as int));
        }
    }
    let (validity, used) = match rv {
        Result::Ok(p) => p,
        Result::Err(e) => {
            return Result::Err(VortexError::InvalidSerde);
        },
    };
    if used != end {
        return Result::Err(VortexError::InvalidSerde);
    }
    let b = Array::VarBin(VarBinArray { is_utf8, offsets, bytes: payload, validity });
    proof {
        assert(wf(b));
        assert forall|a0: Array|
            (wf(a0) && persistable(a0) && bytes@.subrange(pos as int, end as int)
                == #[trigger] spec_array_bytes(a0)) implies {
            &&& b.kind() == a0.kind()
            &&& alen(b) == alen(a0)
            &&& aview(b) == aview(a0)
            &&& forall|d: DType| has_dtype(a0, d) ==> #[trigger] has_dtype(b, d)
        } by {
            let v0 = a0->VarBin_0;
            assert(b->VarBin_0.offsets@ =~= v0.offsets@) by {
                assert(forall|k: int|
                    0 <= k < no ==> #[trigger] b->VarBin_0.offsets@[k] as int == v0.offsets@[
                        k
                    ] as int);
            }
            assert(crate::array::validity_nullability(validity)
                == crate::array::validity_nullability(v0.validity));
            assert forall|k: int| 0 <= k < alen(b) implies aview(b)[k] == aview(a0)[k] by {
                assert(b->VarBin_0.offsets@[k] == v0.offsets@[k]);
                assert(b->VarBin_0.offsets@[k + 1] == v0.offsets@[k + 1]);
            }
            crate::compute::lemma_aview_len(b);
            crate::compute::lemma_aview_len(a0);
            assert(aview(b) =~= aview(a0));
        }
    }
    Result::Ok(b)
}



} // verus!
