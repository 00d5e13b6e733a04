//! The checkpoint file format, stated over plain values.
//!
//! A file is the magic `TFWM`, the version 1 as a little-endian `u32`, the
//! number of entries as a little-endian `u64`, then the entries: scalars,
//! vectors, matrices and string lists, each group in increasing key order.
//! An entry is a kind byte, its key as a length-prefixed UTF-8 string, and its
//! value. Every count and length is a little-endian `u64`; vector elements are
//! the little-endian `u32` bit patterns of `f32` values.
use vstd::prelude::*;
use vstd::utf8::{encode_utf8, decode_utf8, valid_utf8};
use crate::le_bytes::{pow256, le_value, le_bytes, u64_le, u32_le, lemma_le_roundtrip, lemma_pow256_values};
use crate::table::{keys_sorted, assoc_map, lemma_sorted_key_index, key_index, has_key};

verus! {

pub const KIND_SCALAR: u8 = 1;
pub const KIND_VECTOR: u8 = 2;
pub const KIND_MATRIX: u8 = 3;
pub const KIND_STRINGS: u8 = 4;
pub const VERSION: u32 = 1;

pub open spec fn magic() -> Seq<u8> {
    seq![0x54u8, 0x46u8, 0x57u8, 0x4Du8]
}

/// Why a byte string is not a readable checkpoint, or a lookup failed.
#[derive(Clone, Debug, PartialEq, Eq)]
pub enum CheckpointError {
    /// The data ends before an item that it announces.
    UnexpectedEof,
    /// The file does not begin with `TFWM`.
    InvalidMagic,
    /// The version field holds a version other than 1.
    UnsupportedVersion(u32),
    /// An entry carries a kind byte other than 1 to 4.
    UnknownEntryKind(u8),
    /// A key or a stored string is not UTF-8.
    InvalidUtf8,
    /// No entry of the kind under the key.
    Missing(EntryKind, String),
    /// A stored configuration value differs from the expected one.
    ConfigMismatch(String, u64, u64),
    /// An optimizer parameter whose weights and moments differ in length.
    StateSizeMismatch(String),
}

/// The four kinds of entry in a weight map.
#[derive(Clone, Copy, Debug, PartialEq, Eq, Structural)]
pub enum EntryKind {
    Scalar,
    Vector,
    Matrix,
    Strings,
}

/// The contents of a weight map: four lists of (key bytes, value) pairs.
pub ghost struct WeightMapView {
    pub scalars: Seq<(Seq<u8>, u64)>,
    pub vectors: Seq<(Seq<u8>, Seq<u32>)>,
    pub matrices: Seq<(Seq<u8>, Seq<Seq<u32>>)>,
    pub strings: Seq<(Seq<u8>, Seq<Seq<char>>)>,
}

/// The contents of a weight map as four maps from key bytes to values.
pub ghost struct WeightMaps {
    pub scalars: Map<Seq<u8>, u64>,
    pub vectors: Map<Seq<u8>, Seq<u32>>,
    pub matrices: Map<Seq<u8>, Seq<Seq<u32>>>,
    pub strings: Map<Seq<u8>, Seq<Seq<char>>>,
}

/// One entry as it stands in a file.
pub ghost enum EntryView {
    Scalar(Seq<u8>, u64),
    Vector(Seq<u8>, Seq<u32>),
    Matrix(Seq<u8>, Seq<Seq<u32>>),
    Strings(Seq<u8>, Seq<Seq<char>>),
}

pub open spec fn fits_u64(n: nat) -> bool {
    n < pow256(8)
}

pub open spec fn keys_fit<D>(s: Seq<(Seq<u8>, D)>) -> bool {
    forall|i: int| 0 <= i < s.len() ==> valid_utf8(#[trigger] s[i].0) && fits_u64(s[i].0.len())
}

pub open spec fn u32s_fit(v: Seq<u32>) -> bool {
    fits_u64(v.len())
}

pub open spec fn rows_fit(m: Seq<Seq<u32>>) -> bool {
    fits_u64(m.len()) && forall|i: int| 0 <= i < m.len() ==> u32s_fit(#[trigger] m[i])
}

pub open spec fn texts_fit(ss: Seq<Seq<char>>) -> bool {
    fits_u64(ss.len()) && forall|i: int| 0 <= i < ss.len() ==> fits_u64(#[trigger] encode_utf8(ss[i]).len())
}

impl WeightMapView {
    pub open spec fn empty() -> WeightMapView {
        WeightMapView {
            scalars: seq![],
            vectors: seq![],
            matrices: seq![],
            strings: seq![],
        }
    }

    pub open spec fn entry_count(self) -> nat {
        self.scalars.len() + self.vectors.len() + self.matrices.len() + self.strings.len()
    }

    /// Keys are sorted and UTF-8, and every length fits the format's `u64` fields.
    pub open spec fn wf(self) -> bool {
        &&& keys_sorted(self.scalars)
        &&& keys_sorted(self.vectors)
        &&& keys_sorted(self.matrices)
        &&& keys_sorted(self.strings)
        &&& keys_fit(self.scalars)
        &&& keys_fit(self.vectors)
        &&& keys_fit(self.matrices)
        &&& keys_fit(self.strings)
        &&& fits_u64(self.entry_count())
        &&& forall|i: int| 0 <= i < self.vectors.len() ==> u32s_fit(#[trigger] self.vectors[i].1)
        &&& forall|i: int| 0 <= i < self.matrices.len() ==> rows_fit(#[trigger] self.matrices[i].1)
        &&& forall|i: int| 0 <= i < self.strings.len() ==> texts_fit(#[trigger] self.strings[i].1)
    }

    pub open spec fn maps(self) -> WeightMaps {
        WeightMaps {
            scalars: assoc_map(self.scalars),
            vectors: assoc_map(self.vectors),
            matrices: assoc_map(self.matrices),
            strings: assoc_map(self.strings),
        }
    }
}

impl WeightMaps {
    pub open spec fn empty() -> WeightMaps {
        WeightMaps {
            scalars: Map::empty(),
            vectors: Map::empty(),
            matrices: Map::empty(),
            strings: Map::empty(),
        }
    }

    /// The maps after storing one entry read from a file.
    pub open spec fn apply(self, e: EntryView) -> WeightMaps {
        match e {
            EntryView::Scalar(k, v) => WeightMaps { scalars: self.scalars.insert(k, v), ..self },
            EntryView::Vector(k, v) => WeightMaps { vectors: self.vectors.insert(k, v), ..self },
            EntryView::Matrix(k, v) => WeightMaps { matrices: self.matrices.insert(k, v), ..self },
            EntryView::Strings(k, v) => WeightMaps { strings: self.strings.insert(k, v), ..self },
        }
    }
}

/// The maps that storing the entries one after another yields.
pub open spec fn apply_entries(m: WeightMaps, es: Seq<EntryView>) -> WeightMaps
    decreases es.len(),
{
    if es.len() == 0 {
        m
    } else {
        apply_entries(m, es.drop_last()).apply(es.last())
    }
}

/* Encoding */

/// The bytes of each element, one after another.
pub open spec fn concat_map<A>(s: Seq<A>, f: spec_fn(A) -> Seq<u8>) -> Seq<u8>
    decreases s.len(),
{
    if s.len() == 0 {
        seq![]
    } else {
        concat_map(s.drop_last(), f) + f(s.last())
    }
}

pub open spec fn enc_bytes(b: Seq<u8>) -> Seq<u8> {
    u64_le(b.len() as u64) + b
}

pub open spec fn enc_u32s(v: Seq<u32>) -> Seq<u8> {
    u64_le(v.len() as u64) + concat_map(v, |x: u32| u32_le(x))
}

pub open spec fn enc_rows(m: Seq<Seq<u32>>) -> Seq<u8> {
    u64_le(m.len() as u64) + concat_map(m, |r: Seq<u32>| enc_u32s(r))
}

pub open spec fn enc_texts(ss: Seq<Seq<char>>) -> Seq<u8> {
    u64_le(ss.len() as u64) + concat_map(ss, |s: Seq<char>| enc_bytes(encode_utf8(s)))
}

pub open spec fn enc_scalar_entry(e: (Seq<u8>, u64)) -> Seq<u8> {
    seq![KIND_SCALAR] + enc_bytes(e.0) + u64_le(e.1)
}

pub open spec fn enc_vector_entry(e: (Seq<u8>, Seq<u32>)) -> Seq<u8> {
    seq![KIND_VECTOR] + enc_bytes(e.0) + enc_u32s(e.1)
}

pub open spec fn enc_matrix_entry(e: (Seq<u8>, Seq<Seq<u32>>)) -> Seq<u8> {
    seq![KIND_MATRIX] + enc_bytes(e.0) + enc_rows(e.1)
}

pub open spec fn enc_strings_entry(e: (Seq<u8>, Seq<Seq<char>>)) -> Seq<u8> {
    seq![KIND_STRINGS] + enc_bytes(e.0) + enc_texts(e.1)
}

pub open spec fn enc_header(count: nat) -> Seq<u8> {
    magic() + u32_le(VERSION) + u64_le(count as u64)
}

pub open spec fn enc_body(v: WeightMapView) -> Seq<u8> {
    concat_map(v.scalars, |e: (Seq<u8>, u64)| enc_scalar_entry(e))
        + concat_map(v.vectors, |e: (Seq<u8>, Seq<u32>)| enc_vector_entry(e))
        + concat_map(v.matrices, |e: (Seq<u8>, Seq<Seq<u32>>)| enc_matrix_entry(e))
        + concat_map(v.strings, |e: (Seq<u8>, Seq<Seq<char>>)| enc_strings_entry(e))
}

/// The bytes of a checkpoint file holding the given contents.
pub open spec fn encode_weight_map(v: WeightMapView) -> Seq<u8> {
    enc_header(v.entry_count()) + enc_body(v)
}

/* Decoding: each reader takes the bytes and a position, and gives the value
   read and the position after it. */

pub open spec fn take_u8(b: Seq<u8>, pos: int) -> Result<(u8, int), CheckpointError> {
    if 0 <= pos && pos + 1 <= b.len() {
        Ok((b[pos], pos + 1))
    } else {
        Err(CheckpointError::UnexpectedEof)
    }
}

pub open spec fn take_u64(b: Seq<u8>, pos: int) -> Result<(u64, int), CheckpointError> {
    if 0 <= pos && pos + 8 <= b.len() {
        Ok((le_value(b.subrange(pos, pos + 8)) as u64, pos + 8))
    } else {
        Err(CheckpointError::UnexpectedEof)
    }
}

pub open spec fn take_u32(b: Seq<u8>, pos: int) -> Result<(u32, int), CheckpointError> {
    if 0 <= pos && pos + 4 <= b.len() {
        Ok((le_value(b.subrange(pos, pos + 4)) as u32, pos + 4))
    } else {
        Err(CheckpointError::UnexpectedEof)
    }
}

/// A length-prefixed string; its bytes must be UTF-8.
pub open spec fn take_text_bytes(b: Seq<u8>, pos: int) -> Result<(Seq<u8>, int), CheckpointError> {
    match take_u64(b, pos) {
        Err(e) => Err(e),
        Ok((n, p)) => if p + n <= b.len() {
            if valid_utf8(b.subrange(p, p + n)) {
                Ok((b.subrange(p, p + n), p + n))
            } else {
                Err(CheckpointError::InvalidUtf8)
            }
        } else {
            Err(CheckpointError::UnexpectedEof)
        },
    }
}

pub open spec fn take_u32_items(b: Seq<u8>, pos: int, n: nat) -> Result<(Seq<u32>, int), CheckpointError>
    decreases n,
{
    if n == 0 {
        Ok((seq![], pos))
    } else {
        match take_u32_items(b, pos, (n - 1) as nat) {
            Err(e) => Err(e),
            Ok((v, p)) => match take_u32(b, p) {
                Err(e) => Err(e),
                Ok((x, q)) => Ok((v.push(x), q)),
            },
        }
    }
}

pub open spec fn take_u32s(b: Seq<u8>, pos: int) -> Result<(Seq<u32>, int), CheckpointError> {
    match take_u64(b, pos) {
        Err(e) => Err(e),
        Ok((n, p)) => take_u32_items(b, p, n as nat),
    }
}

pub open spec fn take_row_items(b: Seq<u8>, pos: int, n: nat) -> Result<(Seq<Seq<u32>>, int), CheckpointError>
    decreases n,
{
    if n == 0 {
        Ok((seq![], pos))
    } else {
        match take_row_items(b, pos, (n - 1) as nat) {
            Err(e) => Err(e),
            Ok((m, p)) => match take_u32s(b, p) {
                Err(e) => Err(e),
                Ok((r, q)) => Ok((m.push(r), q)),
            },
        }
    }
}

pub open spec fn take_rows(b: Seq<u8>, pos: int) -> Result<(Seq<Seq<u32>>, int), CheckpointError> {
    match take_u64(b, pos) {
        Err(e) => Err(e),
        Ok((n, p)) => take_row_items(b, p, n as nat),
    }
}

pub open spec fn take_text_items(b: Seq<u8>, pos: int, n: nat) -> Result<(Seq<Seq<char>>, int), CheckpointError>
    decreases n,
{
    if n == 0 {
        Ok((seq![], pos))
    } else {
        match take_text_items(b, pos, (n - 1) as nat) {
            Err(e) => Err(e),
            Ok((ss, p)) => match take_text_bytes(b, p) {
                Err(e) => Err(e),
                Ok((s, q)) => Ok((ss.push(decode_utf8(s)), q)),
            },
        }
    }
}

pub open spec fn take_texts(b: Seq<u8>, pos: int) -> Result<(Seq<Seq<char>>, int), CheckpointError> {
    match take_u64(b, pos) {
        Err(e) => Err(e),
        Ok((n, p)) => take_text_items(b, p, n as nat),
    }
}

/// One entry: kind byte, key, then the value that the kind announces.
#[verifier::opaque]
pub open spec fn take_entry(b: Seq<u8>, pos: int) -> Result<(EntryView, int), CheckpointError> {
    match take_u8(b, pos) {
        Err(e) => Err(e),
        Ok((kind, p)) => match take_text_bytes(b, p) {
            Err(e) => Err(e),
            Ok((key, q)) => if kind == KIND_SCALAR {
                match take_u64(b, q) {
                    Err(e) => Err(e),
                    Ok((v, r)) => Ok((EntryView::Scalar(key, v), r)),
                }
            } else if kind == KIND_VECTOR {
                match take_u32s(b, q) {
                    Err(e) => Err(e),
                    Ok((v, r)) => Ok((EntryView::Vector(key, v), r)),
                }
            } else if kind == KIND_MATRIX {
                match take_rows(b, q) {
                    Err(e) => Err(e),
                    Ok((v, r)) => Ok((EntryView::Matrix(key, v), r)),
                }
            } else if kind == KIND_STRINGS {
                match take_texts(b, q) {
                    Err(e) => Err(e),
                    Ok((v, r)) => Ok((EntryView::Strings(key, v), r)),
                }
            } else {
                Err(CheckpointError::UnknownEntryKind(kind))
            },
        },
    }
}

pub open spec fn take_entries(b: Seq<u8>, pos: int, n: nat) -> Result<(Seq<EntryView>, int), CheckpointError>
    decreases n,
{
    if n == 0 {
        Ok((seq![], pos))
    } else {
        match take_entries(b, pos, (n - 1) as nat) {
            Err(e) => Err(e),
            Ok((es, p)) => match take_entry(b, p) {
                Err(e) => Err(e),
                Ok((e, q)) => Ok((es.push(e), q)),
            },
        }
    }
}

/// The entries of a checkpoint file, in file order; bytes after the last
/// announced entry are not read.
pub open spec fn decode_entries(b: Seq<u8>) -> Result<Seq<EntryView>, CheckpointError> {
    if b.len() < 4 {
        Err(CheckpointError::UnexpectedEof)
    } else if b.subrange(0, 4) != magic() {
        Err(CheckpointError::InvalidMagic)
    } else {
        match take_u32(b, 4) {
            Err(e) => Err(e),
            Ok((version, p)) => if version != VERSION {
                Err(CheckpointError::UnsupportedVersion(version))
            } else {
                match take_u64(b, p) {
                    Err(e) => Err(e),
                    Ok((n, q)) => match take_entries(b, q, n as nat) {
                        Err(e) => Err(e),
                        Ok((es, _)) => Ok(es),
                    },
                }
            },
        }
    }
}

/// The maps that reading a checkpoint file yields.
pub open spec fn decode_weight_map(b: Seq<u8>) -> Result<WeightMaps, CheckpointError> {
    match decode_entries(b) {
        Err(e) => Err(e),
        Ok(es) => Ok(apply_entries(WeightMaps::empty(), es)),
    }
}


/* The round trip: reading what was written gives the contents back. */

/// `x` stands in `b` at `pos`.
pub open spec fn bytes_at(b: Seq<u8>, pos: int, x: Seq<u8>) -> bool {
    0 <= pos && pos + x.len() <= b.len() && b.subrange(pos, pos + x.len()) == x
}

proof fn lemma_at_split(b: Seq<u8>, pos: int, x: Seq<u8>, y: Seq<u8>)
    requires
        bytes_at(b, pos, x + y),
    ensures
        bytes_at(b, pos, x),
        bytes_at(b, pos + x.len(), y),
{
    assert(b.subrange(pos, pos + x.len()) =~= (x + y).subrange(0, x.len() as int));
    assert((x + y).subrange(0, x.len() as int) =~= x);
    assert(b.subrange(pos + x.len(), pos + x.len() + y.len()) =~= (x + y).subrange(x.len() as int, (x + y).len() as int));
    assert((x + y).subrange(x.len() as int, (x + y).len() as int) =~= y);
}

proof fn lemma_concat_map_step<A>(s: Seq<A>, f: spec_fn(A) -> Seq<u8>)
    requires
        s.len() > 0,
    ensures
        concat_map(s, f) == concat_map(s.drop_last(), f) + f(s.last()),
{
}

pub proof fn lemma_take_u64(b: Seq<u8>, pos: int, v: u64)
    requires
        bytes_at(b, pos, u64_le(v)),
    ensures
        u64_le(v).len() == 8,
        take_u64(b, pos) == Ok::<(u64, int), CheckpointError>((v, pos + 8)),
{
    lemma_pow256_values();
    lemma_le_roundtrip(v as nat, 8);
}

pub proof fn lemma_take_u32(b: Seq<u8>, pos: int, v: u32)
    requires
        bytes_at(b, pos, u32_le(v)),
    ensures
        u32_le(v).len() == 4,
        take_u32(b, pos) == Ok::<(u32, int), CheckpointError>((v, pos + 4)),
{
    lemma_pow256_values();
    lemma_le_roundtrip(v as nat, 4);
}

pub proof fn lemma_take_text_bytes(b: Seq<u8>, pos: int, t: Seq<u8>)
    requires
        bytes_at(b, pos, enc_bytes(t)),
        valid_utf8(t),
        fits_u64(t.len()),
    ensures
        take_text_bytes(b, pos) == Ok::<(Seq<u8>, int), CheckpointError>((t, pos + enc_bytes(t).len())),
        enc_bytes(t).len() == 8 + t.len(),
{
    lemma_pow256_values();
    lemma_at_split(b, pos, u64_le(t.len() as u64), t);
    lemma_take_u64(b, pos, t.len() as u64);
}

proof fn lemma_take_u32_items(b: Seq<u8>, pos: int, v: Seq<u32>)
    requires
        bytes_at(b, pos, concat_map(v, |x: u32| u32_le(x))),
    ensures
        take_u32_items(b, pos, v.len()) == Ok::<(Seq<u32>, int), CheckpointError>(
            (v, pos + concat_map(v, |x: u32| u32_le(x)).len())),
    decreases v.len(),
{
    let f = |x: u32| u32_le(x);
    if v.len() > 0 {
        lemma_concat_map_step(v, f);
        lemma_at_split(b, pos, concat_map(v.drop_last(), f), f(v.last()));
        lemma_take_u32_items(b, pos, v.drop_last());
        lemma_take_u32(b, pos + concat_map(v.drop_last(), f).len(), v.last());
        assert(v.drop_last().push(v.last()) =~= v);
    } else {
        assert(v =~= seq![]);
    }
}

pub proof fn lemma_take_u32s(b: Seq<u8>, pos: int, v: Seq<u32>)
    requires
        bytes_at(b, pos, enc_u32s(v)),
        u32s_fit(v),
    ensures
        take_u32s(b, pos) == Ok::<(Seq<u32>, int), CheckpointError>((v, pos + enc_u32s(v).len())),
{
    lemma_pow256_values();
    lemma_at_split(b, pos, u64_le(v.len() as u64), concat_map(v, |x: u32| u32_le(x)));
    lemma_take_u64(b, pos, v.len() as u64);
    lemma_take_u32_items(b, pos + 8, v);
}

proof fn lemma_take_row_items(b: Seq<u8>, pos: int, m: Seq<Seq<u32>>)
    requires
        bytes_at(b, pos, concat_map(m, |r: Seq<u32>| enc_u32s(r))),
        forall|i: int| 0 <= i < m.len() ==> u32s_fit(#[trigger] m[i]),
    ensures
        take_row_items(b, pos, m.len()) == Ok::<(Seq<Seq<u32>>, int), CheckpointError>(
            (m, pos + concat_map(m, |r: Seq<u32>| enc_u32s(r)).len())),
    decreases m.len(),
{
    let f = |r: Seq<u32>| enc_u32s(r);
    if m.len() > 0 {
        lemma_concat_map_step(m, f);
        lemma_at_split(b, pos, concat_map(m.drop_last(), f), f(m.last()));
        lemma_take_row_items(b, pos, m.drop_last());
        assert(u32s_fit(m[m.len() - 1]));
        lemma_take_u32s(b, pos + concat_map(m.drop_last(), f).len(), m.last());
        assert(m.drop_last().push(m.last()) =~= m);
    } else {
        assert(m =~= seq![]);
    }
}

pub proof fn lemma_take_rows(b: Seq<u8>, pos: int, m: Seq<Seq<u32>>)
    requires
        bytes_at(b, pos, enc_rows(m)),
        rows_fit(m),
    ensures
        take_rows(b, pos) == Ok::<(Seq<Seq<u32>>, int), CheckpointError>((m, pos + enc_rows(m).len())),
{
    lemma_pow256_values();
    lemma_at_split(b, pos, u64_le(m.len() as u64), concat_map(m, |r: Seq<u32>| enc_u32s(r)));
    lemma_take_u64(b, pos, m.len() as u64);
    lemma_take_row_items(b, pos + 8, m);
}

proof fn lemma_take_text_items(b: Seq<u8>, pos: int, ss: Seq<Seq<char>>)
    requires
        bytes_at(b, pos, concat_map(ss, |s: Seq<char>| enc_bytes(encode_utf8(s)))),
        forall|i: int| 0 <= i < ss.len() ==> fits_u64(#[trigger] encode_utf8(ss[i]).len()),
    ensures
        take_text_items(b, pos, ss.len()) == Ok::<(Seq<Seq<char>>, int), CheckpointError>(
            (ss, pos + concat_map(ss, |s: Seq<char>| enc_bytes(encode_utf8(s))).len())),
    decreases ss.len(),
{
    let f = |s: Seq<char>| enc_bytes(encode_utf8(s));
    if ss.len() > 0 {
        lemma_concat_map_step(ss, f);
        lemma_at_split(b, pos, concat_map(ss.drop_last(), f), f(ss.last()));
        lemma_take_text_items(b, pos, ss.drop_last());
        let last = ss.last();
        assert(fits_u64(encode_utf8(ss[ss.len() - 1]).len()));
        vstd::utf8::encode_utf8_valid_utf8(last);
        vstd::utf8::encode_utf8_decode_utf8(last);
        lemma_take_text_bytes(b, pos + concat_map(ss.drop_last(), f).len(), encode_utf8(last));
        assert(ss.drop_last().push(last) =~= ss);
    } else {
        assert(ss =~= seq![]);
    }
}

pub proof fn lemma_take_texts(b: Seq<u8>, pos: int, ss: Seq<Seq<char>>)
    requires
        bytes_at(b, pos, enc_texts(ss)),
        texts_fit(ss),
    ensures
        take_texts(b, pos) == Ok::<(Seq<Seq<char>>, int), CheckpointError>((ss, pos + enc_texts(ss).len())),
{
    lemma_pow256_values();
    lemma_at_split(b, pos, u64_le(ss.len() as u64), concat_map(ss, |s: Seq<char>| enc_bytes(encode_utf8(s))));
    lemma_take_u64(b, pos, ss.len() as u64);
    lemma_take_text_items(b, pos + 8, ss);
}


pub open spec fn scalar_entries(s: Seq<(Seq<u8>, u64)>) -> Seq<EntryView> {
    s.map_values(|e: (Seq<u8>, u64)| EntryView::Scalar(e.0, e.1))
}

pub open spec fn vector_entries(s: Seq<(Seq<u8>, Seq<u32>)>) -> Seq<EntryView> {
    s.map_values(|e: (Seq<u8>, Seq<u32>)| EntryView::Vector(e.0, e.1))
}

pub open spec fn matrix_entries(s: Seq<(Seq<u8>, Seq<Seq<u32>>)>) -> Seq<EntryView> {
    s.map_values(|e: (Seq<u8>, Seq<Seq<u32>>)| EntryView::Matrix(e.0, e.1))
}

pub open spec fn strings_entries(s: Seq<(Seq<u8>, Seq<Seq<char>>)>) -> Seq<EntryView> {
    s.map_values(|e: (Seq<u8>, Seq<Seq<char>>)| EntryView::Strings(e.0, e.1))
}

/// The entries of a weight map in the order in which they are written.
pub open spec fn entries_of(v: WeightMapView) -> Seq<EntryView> {
    scalar_entries(v.scalars) + vector_entries(v.vectors) + matrix_entries(v.matrices)
        + strings_entries(v.strings)
}

proof fn lemma_take_entries_append(b: Seq<u8>, pos: int, n1: nat, n2: nat)
    ensures
        take_entries(b, pos, n1 + n2) == match take_entries(b, pos, n1) {
            Err(e) => Err(e),
            Ok((es1, p1)) => match take_entries(b, p1, n2) {
                Err(e) => Err(e),
                Ok((es2, p2)) => Ok((es1 + es2, p2)),
            },
        },
    decreases n2,
{
    if n2 > 0 {
        lemma_take_entries_append(b, pos, n1, (n2 - 1) as nat);
        assert((n1 + n2 - 1) as nat == n1 + (n2 - 1) as nat);
        match take_entries(b, pos, n1) {
            Err(e) => {},
            Ok((es1, p1)) => match take_entries(b, p1, (n2 - 1) as nat) {
                Err(e) => {},
                Ok((es2, p2)) => match take_entry(b, p2) {
                    Err(e) => {},
                    Ok((e, q)) => {
                        assert((es1 + es2).push(e) =~= es1 + es2.push(e));
                    },
                },
            },
        }
    } else {
        match take_entries(b, pos, n1) {
            Err(e) => {},
            Ok((es1, p1)) => {
                assert(es1 + seq![] =~= es1);
            },
        }
    }
}

proof fn lemma_take_scalar_group(b: Seq<u8>, pos: int, s: Seq<(Seq<u8>, u64)>)
    requires
        bytes_at(b, pos, concat_map(s, |e: (Seq<u8>, u64)| enc_scalar_entry(e))),
        keys_fit(s),
    ensures
        take_entries(b, pos, s.len()) == Ok::<(Seq<EntryView>, int), CheckpointError>(
            (scalar_entries(s), pos + concat_map(s, |e: (Seq<u8>, u64)| enc_scalar_entry(e)).len())),
    decreases s.len(),
{
    reveal(take_entry);
    let f = |e: (Seq<u8>, u64)| enc_scalar_entry(e);
    if s.len() > 0 {
        let init = s.drop_last();
        let e = s.last();
        lemma_concat_map_step(s, f);
        lemma_at_split(b, pos, concat_map(init, f), f(e));
        lemma_take_scalar_group(b, pos, init);
        let p = pos + concat_map(init, f).len();
        assert(valid_utf8(s[s.len() - 1].0) && fits_u64(s[s.len() - 1].0.len()));
        lemma_at_split(b, p, seq![KIND_SCALAR] + enc_bytes(e.0), u64_le(e.1));
        lemma_at_split(b, p, seq![KIND_SCALAR], enc_bytes(e.0));
        lemma_take_text_bytes(b, p + 1, e.0);
        lemma_take_u64(b, p + 1 + enc_bytes(e.0).len(), e.1);
        assert(b.subrange(p, p + 1) =~= seq![KIND_SCALAR]);
        assert(b[p] == b.subrange(p, p + 1)[0]);
        assert(scalar_entries(init).push(EntryView::Scalar(e.0, e.1)) =~= scalar_entries(s));
    } else {
        assert(scalar_entries(s) =~= seq![]);
    }
}

proof fn lemma_take_vector_group(b: Seq<u8>, pos: int, s: Seq<(Seq<u8>, Seq<u32>)>)
    requires
        bytes_at(b, pos, concat_map(s, |e: (Seq<u8>, Seq<u32>)| enc_vector_entry(e))),
        keys_fit(s),
        forall|i: int| 0 <= i < s.len() ==> u32s_fit(#[trigger] s[i].1),
    ensures
        take_entries(b, pos, s.len()) == Ok::<(Seq<EntryView>, int), CheckpointError>(
            (vector_entries(s), pos + concat_map(s, |e: (Seq<u8>, Seq<u32>)| enc_vector_entry(e)).len())),
    decreases s.len(),
{
    reveal(take_entry);
    let f = |e: (Seq<u8>, Seq<u32>)| enc_vector_entry(e);
    if s.len() > 0 {
        let init = s.drop_last();
        let e = s.last();
        lemma_concat_map_step(s, f);
        lemma_at_split(b, pos, concat_map(init, f), f(e));
        lemma_take_vector_group(b, pos, init);
        let p = pos + concat_map(init, f).len();
        assert(valid_utf8(s[s.len() - 1].0) && fits_u64(s[s.len() - 1].0.len()));
        assert(u32s_fit(s[s.len() - 1].1));
        lemma_at_split(b, p, seq![KIND_VECTOR] + enc_bytes(e.0), enc_u32s(e.1));
        lemma_at_split(b, p, seq![KIND_VECTOR], enc_bytes(e.0));
        lemma_take_text_bytes(b, p + 1, e.0);
        lemma_take_u32s(b, p + 1 + enc_bytes(e.0).len(), e.1);
        assert(b.subrange(p, p + 1) =~= seq![KIND_VECTOR]);
        assert(b[p] == b.subrange(p, p + 1)[0]);
        assert(vector_entries(init).push(EntryView::Vector(e.0, e.1)) =~= vector_entries(s));
    } else {
        assert(vector_entries(s) =~= seq![]);
    }
}

proof fn lemma_take_matrix_group(b: Seq<u8>, pos: int, s: Seq<(Seq<u8>, Seq<Seq<u32>>)>)
    requires
        bytes_at(b, pos, concat_map(s, |e: (Seq<u8>, Seq<Seq<u32>>)| enc_matrix_entry(e))),
        keys_fit(s),
        forall|i: int| 0 <= i < s.len() ==> rows_fit(#[trigger] s[i].1),
    ensures
        take_entries(b, pos, s.len()) == Ok::<(Seq<EntryView>, int), CheckpointError>(
            (matrix_entries(s), pos + concat_map(s, |e: (Seq<u8>, Seq<Seq<u32>>)| enc_matrix_entry(e)).len())),
    decreases s.len(),
{
    reveal(take_entry);
    let f = |e: (Seq<u8>, Seq<Seq<u32>>)| enc_matrix_entry(e);
    if s.len() > 0 {
        let init = s.drop_last();
        let e = s.last();
        lemma_concat_map_step(s, f);
        lemma_at_split(b, pos, concat_map(init, f), f(e));
        lemma_take_matrix_group(b, pos, init);
        let p = pos + concat_map(init, f).len();
        assert(valid_utf8(s[s.len() - 1].0) && fits_u64(s[s.len() - 1].0.len()));
        assert(rows_fit(s[s.len() - 1].1));
        lemma_at_split(b, p, seq![KIND_MATRIX] + enc_bytes(e.0), enc_rows(e.1));
        lemma_at_split(b, p, seq![KIND_MATRIX], enc_bytes(e.0));
        lemma_take_text_bytes(b, p + 1, e.0);
        lemma_take_rows(b, p + 1 + enc_bytes(e.0).len(), e.1);
        assert(b.subrange(p, p + 1) =~= seq![KIND_MATRIX]);
        assert(b[p] == b.subrange(p, p + 1)[0]);
        assert(matrix_entries(init).push(EntryView::Matrix(e.0, e.1)) =~= matrix_entries(s));
    } else {
        assert(matrix_entries(s) =~= seq![]);
    }
}

proof fn lemma_take_strings_group(b: Seq<u8>, pos: int, s: Seq<(Seq<u8>, Seq<Seq<char>>)>)
    requires
        bytes_at(b, pos, concat_map(s, |e: (Seq<u8>, Seq<Seq<char>>)| enc_strings_entry(e))),
        keys_fit(s),
        forall|i: int| 0 <= i < s.len() ==> texts_fit(#[trigger] s[i].1),
    ensures
        take_entries(b, pos, s.len()) == Ok::<(Seq<EntryView>, int), CheckpointError>(
            (strings_entries(s), pos + concat_map(s, |e: (Seq<u8>, Seq<Seq<char>>)| enc_strings_entry(e)).len())),
    decreases s.len(),
{
    reveal(take_entry);
    let f = |e: (Seq<u8>, Seq<Seq<char>>)| enc_strings_entry(e);
    if s.len() > 0 {
        let init = s.drop_last();
        let e = s.last();
        lemma_concat_map_step(s, f);
        lemma_at_split(b, pos, concat_map(init, f), f(e));
        lemma_take_strings_group(b, pos, init);
        let p = pos + concat_map(init, f).len();
        assert(valid_utf8(s[s.len() - 1].0) && fits_u64(s[s.len() - 1].0.len()));
        assert(texts_fit(s[s.len() - 1].1));
        lemma_at_split(b, p, seq![KIND_STRINGS] + enc_bytes(e.0), enc_texts(e.1));
        lemma_at_split(b, p, seq![KIND_STRINGS], enc_bytes(e.0));
        lemma_take_text_bytes(b, p + 1, e.0);
        lemma_take_texts(b, p + 1 + enc_bytes(e.0).len(), e.1);
        assert(b.subrange(p, p + 1) =~= seq![KIND_STRINGS]);
        assert(b[p] == b.subrange(p, p + 1)[0]);
        assert(strings_entries(init).push(EntryView::Strings(e.0, e.1)) =~= strings_entries(s));
    } else {
        assert(strings_entries(s) =~= seq![]);
    }
}

proof fn lemma_take_body(b: Seq<u8>, pos: int, v: WeightMapView)
    requires
        v.wf(),
        bytes_at(b, pos, enc_body(v)),
    ensures
        take_entries(b, pos, v.entry_count()) == Ok::<(Seq<EntryView>, int), CheckpointError>(
            (entries_of(v), pos + enc_body(v).len())),
{
    let c1 = concat_map(v.scalars, |e: (Seq<u8>, u64)| enc_scalar_entry(e));
    let c2 = concat_map(v.vectors, |e: (Seq<u8>, Seq<u32>)| enc_vector_entry(e));
    let c3 = concat_map(v.matrices, |e: (Seq<u8>, Seq<Seq<u32>>)| enc_matrix_entry(e));
    let c4 = concat_map(v.strings, |e: (Seq<u8>, Seq<Seq<char>>)| enc_strings_entry(e));
    assert(enc_body(v) == c1 + c2 + c3 + c4);
    lemma_at_split(b, pos, c1 + c2 + c3, c4);
    lemma_at_split(b, pos, c1 + c2, c3);
    lemma_at_split(b, pos, c1, c2);
    lemma_take_scalar_group(b, pos, v.scalars);
    let p1: int = pos + c1.len();
    lemma_take_vector_group(b, p1, v.vectors);
    let p2: int = p1 + c2.len();
    lemma_take_matrix_group(b, p2, v.matrices);
    let p3: int = p2 + c3.len();
    lemma_take_strings_group(b, p3, v.strings);
    let n1 = v.scalars.len();
    let n2 = v.vectors.len();
    let n3 = v.matrices.len();
    let n4 = v.strings.len();
    lemma_take_entries_append(b, pos, n1, n2);
    lemma_take_entries_append(b, pos, n1 + n2, n3);
    lemma_take_entries_append(b, pos, n1 + n2 + n3, n4);
    assert(v.entry_count() == n1 + n2 + n3 + n4);
}

proof fn lemma_take_header(b: Seq<u8>, count: nat)
    requires
        fits_u64(count),
        bytes_at(b, 0, enc_header(count)),
    ensures
        b.len() >= 16,
        b.subrange(0, 4) == magic(),
        take_u32(b, 4) == Ok::<(u32, int), CheckpointError>((VERSION, 8)),
        take_u64(b, 8) == Ok::<(u64, int), CheckpointError>((count as u64, 16)),
        (count as u64) as nat == count,
        enc_header(count).len() == 16,
{
    lemma_pow256_values();
    lemma_at_split(b, 0, magic() + u32_le(VERSION), u64_le(count as u64));
    lemma_at_split(b, 0, magic(), u32_le(VERSION));
    lemma_take_u32(b, 4, VERSION);
    lemma_take_u64(b, 8, count as u64);
}

/// Reading the bytes of a well-formed weight map gives back its entries in order.
pub proof fn lemma_decode_encode_entries(v: WeightMapView)
    requires
        v.wf(),
    ensures
        decode_entries(encode_weight_map(v)) == Ok::<Seq<EntryView>, CheckpointError>(entries_of(v)),
{
    let b = encode_weight_map(v);
    let h = enc_header(v.entry_count());
    let body = enc_body(v);
    assert(bytes_at(b, 0, h + body)) by {
        assert(b.subrange(0, b.len() as int) =~= b);
    }
    lemma_at_split(b, 0, h, body);
    lemma_take_header(b, v.entry_count());
    lemma_take_body(b, 16, v);
}

proof fn lemma_apply_append(m: WeightMaps, es1: Seq<EntryView>, es2: Seq<EntryView>)
    ensures
        apply_entries(m, es1 + es2) == apply_entries(apply_entries(m, es1), es2),
    decreases es2.len(),
{
    if es2.len() > 0 {
        assert((es1 + es2).drop_last() =~= es1 + es2.drop_last());
        assert((es1 + es2).last() == es2.last());
        lemma_apply_append(m, es1, es2.drop_last());
    } else {
        assert(es1 + es2 =~= es1);
    }
}

/// Adding the largest entry of a sorted list adds it to the map.
pub proof fn lemma_assoc_map_push<D>(s: Seq<(Seq<u8>, D)>)
    requires
        keys_sorted(s),
        s.len() > 0,
    ensures
        assoc_map(s) == assoc_map(s.drop_last()).insert(s.last().0, s.last().1),
{
    let t = s.drop_last();
    let n = s.len() - 1;
    assert(keys_sorted(t));
    lemma_sorted_key_index(s, n);
    assert forall|q: Seq<u8>| #![trigger assoc_map(s).contains_key(q)] q != s.last().0 implies
        assoc_map(s).contains_key(q) == assoc_map(t).contains_key(q)
        && (assoc_map(s).contains_key(q) ==> assoc_map(s)[q] == assoc_map(t)[q]) by {
        if assoc_map(s).contains_key(q) {
            let i = key_index(s, q);
            lemma_sorted_key_index(s, i);
            assert(i != n);
            assert(t[i] == s[i]);
            lemma_sorted_key_index(t, i);
        }
        if assoc_map(t).contains_key(q) {
            let i = key_index(t, q);
            lemma_sorted_key_index(t, i);
            assert(t[i] == s[i]);
            lemma_sorted_key_index(s, i);
        }
    }
    assert(assoc_map(s) =~= assoc_map(t).insert(s.last().0, s.last().1));
}

proof fn lemma_apply_scalars(m: WeightMaps, s: Seq<(Seq<u8>, u64)>)
    requires
        keys_sorted(s),
    ensures
        apply_entries(m, scalar_entries(s)) == (WeightMaps { scalars: m.scalars.union_prefer_right(assoc_map(s)), ..m }),
    decreases s.len(),
{
    if s.len() > 0 {
        let t = s.drop_last();
        assert(scalar_entries(s).drop_last() =~= scalar_entries(t));
        lemma_apply_scalars(m, t);
        lemma_assoc_map_push(s);
        assert(m.scalars.union_prefer_right(assoc_map(t)).insert(s.last().0, s.last().1)
            =~= m.scalars.union_prefer_right(assoc_map(s)));
    } else {
        assert(m.scalars.union_prefer_right(assoc_map(s)) =~= m.scalars);
    }
}

proof fn lemma_apply_vectors(m: WeightMaps, s: Seq<(Seq<u8>, Seq<u32>)>)
    requires
        keys_sorted(s),
    ensures
        apply_entries(m, vector_entries(s)) == (WeightMaps { vectors: m.vectors.union_prefer_right(assoc_map(s)), ..m }),
    decreases s.len(),
{
    if s.len() > 0 {
        let t = s.drop_last();
        assert(vector_entries(s).drop_last() =~= vector_entries(t));
        lemma_apply_vectors(m, t);
        lemma_assoc_map_push(s);
        assert(m.vectors.union_prefer_right(assoc_map(t)).insert(s.last().0, s.last().1)
            =~= m.vectors.union_prefer_right(assoc_map(s)));
    } else {
        assert(m.vectors.union_prefer_right(assoc_map(s)) =~= m.vectors);
    }
}

proof fn lemma_apply_matrices(m: WeightMaps, s: Seq<(Seq<u8>, Seq<Seq<u32>>)>)
    requires
        keys_sorted(s),
    ensures
        apply_entries(m, matrix_entries(s)) == (WeightMaps { matrices: m.matrices.union_prefer_right(assoc_map(s)), ..m }),
    decreases s.len(),
{
    if s.len() > 0 {
        let t = s.drop_last();
        assert(matrix_entries(s).drop_last() =~= matrix_entries(t));
        lemma_apply_matrices(m, t);
        lemma_assoc_map_push(s);
        assert(m.matrices.union_prefer_right(assoc_map(t)).insert(s.last().0, s.last().1)
            =~= m.matrices.union_prefer_right(assoc_map(s)));
    } else {
        assert(m.matrices.union_prefer_right(assoc_map(s)) =~= m.matrices);
    }
}

proof fn lemma_apply_strings(m: WeightMaps, s: Seq<(Seq<u8>, Seq<Seq<char>>)>)
    requires
        keys_sorted(s),
    ensures
        apply_entries(m, strings_entries(s)) == (WeightMaps { strings: m.strings.union_prefer_right(assoc_map(s)), ..m }),
    decreases s.len(),
{
    if s.len() > 0 {
        let t = s.drop_last();
        assert(strings_entries(s).drop_last() =~= strings_entries(t));
        lemma_apply_strings(m, t);
        lemma_assoc_map_push(s);
        assert(m.strings.union_prefer_right(assoc_map(t)).insert(s.last().0, s.last().1)
            =~= m.strings.union_prefer_right(assoc_map(s)));
    } else {
        assert(m.strings.union_prefer_right(assoc_map(s)) =~= m.strings);
    }
}

/// Storing the entries of a well-formed weight map, in order, rebuilds its maps.
pub proof fn lemma_apply_entries_of(v: WeightMapView)
    requires
        v.wf(),
    ensures
        apply_entries(WeightMaps::empty(), entries_of(v)) == v.maps(),
{
    let m0 = WeightMaps::empty();
    let e1 = scalar_entries(v.scalars);
    let e2 = vector_entries(v.vectors);
    let e3 = matrix_entries(v.matrices);
    let e4 = strings_entries(v.strings);
    lemma_apply_append(m0, e1 + e2 + e3, e4);
    lemma_apply_append(m0, e1 + e2, e3);
    lemma_apply_append(m0, e1, e2);
    lemma_apply_scalars(m0, v.scalars);
    let m1 = apply_entries(m0, e1);
    lemma_apply_vectors(m1, v.vectors);
    let m2 = apply_entries(m1, e2);
    lemma_apply_matrices(m2, v.matrices);
    let m3 = apply_entries(m2, e3);
    lemma_apply_strings(m3, v.strings);
    assert(Map::<Seq<u8>, u64>::empty().union_prefer_right(assoc_map(v.scalars)) =~= assoc_map(v.scalars));
    assert(Map::<Seq<u8>, Seq<u32>>::empty().union_prefer_right(assoc_map(v.vectors)) =~= assoc_map(v.vectors));
    assert(Map::<Seq<u8>, Seq<Seq<u32>>>::empty().union_prefer_right(assoc_map(v.matrices)) =~= assoc_map(v.matrices));
    assert(Map::<Seq<u8>, Seq<Seq<char>>>::empty().union_prefer_right(assoc_map(v.strings)) =~= assoc_map(v.strings));
}

/// Reading a checkpoint written from a weight map gives back the same maps.
pub proof fn lemma_checkpoint_roundtrip(v: WeightMapView)
    requires
        v.wf(),
    ensures
        decode_weight_map(encode_weight_map(v)) == Ok::<WeightMaps, CheckpointError>(v.maps()),
{
    lemma_decode_encode_entries(v);
    lemma_apply_entries_of(v);
}


/* Nesting one weight map inside another under a scope name. */

/// The scope name followed by the separator `.`.
pub open spec fn scope_prefix(p: Seq<u8>) -> Seq<u8> {
    p.push(0x2Eu8)
}

/// The key `k` nested under scope `p`: `p.k`.
pub open spec fn scoped_key(p: Seq<u8>, k: Seq<u8>) -> Seq<u8> {
    scope_prefix(p) + k
}

/// The key begins with `p.`.
pub open spec fn in_scope(p: Seq<u8>, k: Seq<u8>) -> bool {
    scope_prefix(p).len() <= k.len() && k.subrange(0, scope_prefix(p).len() as int) == scope_prefix(p)
}

/// The key with its leading `p.` removed.
pub open spec fn unscoped(p: Seq<u8>, k: Seq<u8>) -> Seq<u8> {
    k.subrange(scope_prefix(p).len() as int, k.len() as int)
}

/// `m` with every entry of `o` added under scope `p`; the added entries win.
pub open spec fn merged_map<D>(m: Map<Seq<u8>, D>, p: Seq<u8>, o: Map<Seq<u8>, D>) -> Map<Seq<u8>, D> {
    Map::new(
        |k: Seq<u8>| m.contains_key(k) || (in_scope(p, k) && o.contains_key(unscoped(p, k))),
        |k: Seq<u8>| if in_scope(p, k) && o.contains_key(unscoped(p, k)) { o[unscoped(p, k)] } else { m[k] },
    )
}

/// The entries of `m` under scope `p`, with the scope removed from their keys.
pub open spec fn scoped_map<D>(m: Map<Seq<u8>, D>, p: Seq<u8>) -> Map<Seq<u8>, D> {
    Map::new(|k: Seq<u8>| m.contains_key(scoped_key(p, k)), |k: Seq<u8>| m[scoped_key(p, k)])
}

impl WeightMaps {
    pub open spec fn merged(self, p: Seq<u8>, o: WeightMaps) -> WeightMaps {
        WeightMaps {
            scalars: merged_map(self.scalars, p, o.scalars),
            vectors: merged_map(self.vectors, p, o.vectors),
            matrices: merged_map(self.matrices, p, o.matrices),
            strings: merged_map(self.strings, p, o.strings),
        }
    }

    pub open spec fn scoped(self, p: Seq<u8>) -> WeightMaps {
        WeightMaps {
            scalars: scoped_map(self.scalars, p),
            vectors: scoped_map(self.vectors, p),
            matrices: scoped_map(self.matrices, p),
            strings: scoped_map(self.strings, p),
        }
    }
}

pub proof fn lemma_scoped_key_parts(p: Seq<u8>, k: Seq<u8>)
    ensures
        in_scope(p, scoped_key(p, k)),
        unscoped(p, scoped_key(p, k)) == k,
{
    let q = scoped_key(p, k);
    assert(q.subrange(0, scope_prefix(p).len() as int) =~= scope_prefix(p));
    assert(unscoped(p, q) =~= k);
}

pub proof fn lemma_unscoped_inverse(p: Seq<u8>, k: Seq<u8>)
    requires
        in_scope(p, k),
    ensures
        scoped_key(p, unscoped(p, k)) == k,
{
    assert(scoped_key(p, unscoped(p, k)) =~= k);
}

/// Adding one entry under the scope adds its scoped key.
pub proof fn lemma_merged_insert<D>(m: Map<Seq<u8>, D>, p: Seq<u8>, o: Map<Seq<u8>, D>, k: Seq<u8>, v: D)
    ensures
        merged_map(m, p, o.insert(k, v)) == merged_map(m, p, o).insert(scoped_key(p, k), v),
{
    lemma_scoped_key_parts(p, k);
    assert forall|q: Seq<u8>| q != scoped_key(p, k) && in_scope(p, q) implies unscoped(p, q) != k by {
        lemma_unscoped_inverse(p, q);
    }
    assert(merged_map(m, p, o.insert(k, v)) =~= merged_map(m, p, o).insert(scoped_key(p, k), v));
}

pub proof fn lemma_merged_empty<D>(m: Map<Seq<u8>, D>, p: Seq<u8>)
    ensures
        merged_map(m, p, Map::empty()) == m,
{
    assert(merged_map(m, p, Map::empty()) =~= m);
}

/// The scoped view of a map grows by an entry exactly when the entry is in scope.
pub proof fn lemma_scoped_insert<D>(m: Map<Seq<u8>, D>, p: Seq<u8>, k: Seq<u8>, v: D)
    ensures
        scoped_map(m.insert(k, v), p) == if in_scope(p, k) {
            scoped_map(m, p).insert(unscoped(p, k), v)
        } else {
            scoped_map(m, p)
        },
{
    if in_scope(p, k) {
        lemma_unscoped_inverse(p, k);
        assert forall|q: Seq<u8>| q != unscoped(p, k) implies scoped_key(p, q) != k by {
            lemma_scoped_key_parts(p, q);
        }
        assert(scoped_map(m.insert(k, v), p) =~= scoped_map(m, p).insert(unscoped(p, k), v));
    } else {
        assert forall|q: Seq<u8>| scoped_key(p, q) != k by {
            lemma_scoped_key_parts(p, q);
        }
        assert(scoped_map(m.insert(k, v), p) =~= scoped_map(m, p));
    }
}

/// Adding the smallest entry of a sorted list adds it to the map.
pub proof fn lemma_assoc_map_prepend<D>(s: Seq<(Seq<u8>, D)>)
    requires
        keys_sorted(s),
        s.len() > 0,
    ensures
        assoc_map(s) == assoc_map(s.drop_first()).insert(s[0].0, s[0].1),
{
    let t = s.drop_first();
    assert(keys_sorted(t)) by {
        assert forall|i: int, j: int| 0 <= i < j < t.len() implies crate::keys::bytes_lt(#[trigger] t[i].0, #[trigger] t[j].0) by {
            assert(t[i] == s[i + 1] && t[j] == s[j + 1]);
        }
    }
    lemma_sorted_key_index(s, 0);
    assert forall|q: Seq<u8>| #![trigger assoc_map(s).contains_key(q)] q != s[0].0 implies
        assoc_map(s).contains_key(q) == assoc_map(t).contains_key(q)
        && (assoc_map(s).contains_key(q) ==> assoc_map(s)[q] == assoc_map(t)[q]) by {
        if assoc_map(s).contains_key(q) {
            let i = key_index(s, q);
            lemma_sorted_key_index(s, i);
            assert(i != 0);
            assert(t[i - 1] == s[i]);
            lemma_sorted_key_index(t, i - 1);
        }
        if assoc_map(t).contains_key(q) {
            let i = key_index(t, q);
            lemma_sorted_key_index(t, i);
            assert(t[i] == s[i + 1]);
            lemma_sorted_key_index(s, i + 1);
        }
    }
    assert(assoc_map(s) =~= assoc_map(t).insert(s[0].0, s[0].1));
}

/// Scoping what was merged under the same scope gives back the merged entries,
/// on top of what already stood under that scope.
pub proof fn lemma_scoped_merged<D>(m: Map<Seq<u8>, D>, p: Seq<u8>, o: Map<Seq<u8>, D>)
    ensures
        scoped_map(merged_map(m, p, o), p) == scoped_map(m, p).union_prefer_right(o),
{
    assert forall|k: Seq<u8>| #![trigger scoped_key(p, k)] in_scope(p, scoped_key(p, k))
        && unscoped(p, scoped_key(p, k)) == k by {
        lemma_scoped_key_parts(p, k);
    }
    assert(scoped_map(merged_map(m, p, o), p) =~= scoped_map(m, p).union_prefer_right(o));
}

} // verus!
