//! A named collection of scalars, `f32` vectors and matrices (held as their
//! bit patterns) and string lists, and its checkpoint file format.
use vstd::prelude::*;
use vstd::utf8::{encode_utf8, valid_utf8};
use crate::keys::{lemma_encode_utf8_concat, lemma_encode_dot};
use crate::table::{KeyedTable, keys_sorted, assoc_map};
use crate::le_bytes::{push_u64, push_u32, lemma_pow256_values, u64_le, u32_le};
use crate::codec::{
    push_bytes, write_text, write_u32s, write_rows, write_texts, read_u8_at, read_u64_at,
    read_u32_at, read_text_at, read_u32s_at, read_rows_at, read_texts_at, lemma_concat_map_take,
    utf8_text,
};
use crate::format::{
    CheckpointError, EntryKind, WeightMapView, WeightMaps, EntryView, VERSION, KIND_SCALAR,
    KIND_VECTOR, KIND_MATRIX, KIND_STRINGS, magic, concat_map, enc_scalar_entry, enc_vector_entry,
    enc_matrix_entry, enc_strings_entry, enc_header, enc_body, encode_weight_map, take_entry,
    take_entries, decode_entries, decode_weight_map, apply_entries, keys_fit, fits_u64, u32s_fit,
    rows_fit, texts_fit, scope_prefix, scoped_key, in_scope, unscoped, merged_map, scoped_map,
    lemma_merged_insert, lemma_merged_empty, lemma_scoped_insert, lemma_assoc_map_prepend,
    lemma_assoc_map_push, take_u8, take_u32, take_u64, take_text_bytes, take_u32s, take_rows,
    take_texts,
};

verus! {

/// A component whose state is saved to and restored from a weight map.
pub trait Checkpointable {
    fn to_weight_map(&self) -> WeightMap;

    fn from_weight_map(&mut self, map: &WeightMap) -> Result<(), CheckpointError>;
}

/// A value that can be copied with its contents unchanged.
pub trait DeepClone: DeepView + Sized {
    fn deep_clone(&self) -> (r: Self)
        ensures
            r.deep_view() == self.deep_view(),
    ;
}

impl DeepClone for u64 {
    fn deep_clone(&self) -> (r: Self) {
        *self
    }
}

impl DeepClone for Vec<u32> {
    fn deep_clone(&self) -> (r: Self) {
        let mut out: Vec<u32> = Vec::new();
        let n = self.len();
        let mut i: usize = 0;
        while i < n
            invariant
                n == self@.len(),
                i <= n,
                out@ == self@.take(i as int),
            decreases n - i,
        {
            out.push(self[i]);
            i = i + 1;
            assert(out@ =~= self@.take(i as int));
        }
        assert(out.deep_view() =~= self.deep_view());
        out
    }
}

impl DeepClone for Vec<Vec<u32>> {
    fn deep_clone(&self) -> (r: Self) {
        let mut out: Vec<Vec<u32>> = Vec::new();
        let n = self.len();
        let mut i: usize = 0;
        while i < n
            invariant
                n == self@.len(),
                i <= n,
                out.deep_view() == self.deep_view().take(i as int),
            decreases n - i,
        {
            let row = self[i].deep_clone();
            let ghost before = out.deep_view();
            out.push(row);
            assert(out.deep_view() =~= before.push(row.deep_view()));
            i = i + 1;
            assert(out.deep_view() =~= self.deep_view().take(i as int));
        }
        assert(self.deep_view().take(n as int) =~= self.deep_view());
        out
    }
}

impl DeepClone for Vec<String> {
    fn deep_clone(&self) -> (r: Self) {
        let mut out: Vec<String> = Vec::new();
        let n = self.len();
        let mut i: usize = 0;
        while i < n
            invariant
                n == self@.len(),
                i <= n,
                out.deep_view() == self.deep_view().take(i as int),
            decreases n - i,
        {
            let s = self[i].clone();
            let ghost before = out.deep_view();
            out.push(s);
            assert(out.deep_view() =~= before.push(s@));
            i = i + 1;
            assert(out.deep_view() =~= self.deep_view().take(i as int));
        }
        assert(self.deep_view().take(n as int) =~= self.deep_view());
        out
    }
}

/// The text `prefix.key`.
pub(crate) fn scoped_name(prefix: &str, key: &String) -> (r: String)
    ensures
        encode_utf8(r@) == scoped_key(encode_utf8(prefix@), encode_utf8(key@)),
{
    let mut s = String::from_str(prefix);
    let dot = ".";
    proof {
        reveal_strlit(".");
    }
    s.append(dot);
    s.append(key.as_str());
    proof {
        assert(s@ == prefix@ + seq!['.'] + key@);
        lemma_encode_utf8_concat(prefix@ + seq!['.'], key@);
        lemma_encode_utf8_concat(prefix@, seq!['.']);
        lemma_encode_dot();
        assert(encode_utf8(prefix@) + seq![0x2Eu8] =~= encode_utf8(prefix@).push(0x2Eu8));
    }
    s
}

/// Whether `key` begins with the bytes `scope` followed by `.`.
fn starts_with_scope(key: &[u8], scope: &[u8]) -> (r: bool)
    ensures
        r == in_scope(scope@, key@),
{
    let n = scope.len();
    if key.len() <= n {
        return false;
    }
    let mut i: usize = 0;
    while i < n
        invariant
            n == scope@.len(),
            n < key@.len(),
            i <= n,
            forall|j: int| 0 <= j < i ==> key@[j] == scope@[j],
        decreases n - i,
    {
        if key[i] != scope[i] {
            assert(key@.subrange(0, n + 1)[i as int] != scope_prefix(scope@)[i as int]);
            return false;
        }
        i = i + 1;
    }
    if key[n] == 0x2Eu8 {
        assert(key@.subrange(0, n + 1) =~= scope_prefix(scope@));
        true
    } else {
        assert(key@.subrange(0, n + 1)[n as int] != scope_prefix(scope@)[n as int]);
        false
    }
}

/// Adds each entry of `src` to `dst` under `prefix.`.
fn merge_table<V: DeepView>(dst: &mut KeyedTable<V>, prefix: &str, src: KeyedTable<V>)
    requires
        keys_sorted(old(dst)@),
        keys_sorted(src@),
    ensures
        keys_sorted(final(dst)@),
        assoc_map(final(dst)@) == merged_map(assoc_map(old(dst)@), encode_utf8(prefix@), assoc_map(src@)),
        final(dst)@.len() <= old(dst)@.len() + src@.len(),
{
    let ghost p = encode_utf8(prefix@);
    let ghost o = src@;
    let ghost m0 = assoc_map(old(dst)@);
    let mut src = src;
    proof {
        assert(o.skip(o.len() as int) =~= Seq::<(Seq<u8>, V::V)>::empty());
        assert(assoc_map(o.skip(o.len() as int)) =~= Map::<Seq<u8>, V::V>::empty());
        lemma_merged_empty(m0, p);
    }
    while src.len() > 0
        invariant
            keys_sorted(dst@),
            p == encode_utf8(prefix@),
            keys_sorted(o),
            keys_sorted(src@),
            src@.len() <= o.len(),
            src@ == o.take(src@.len() as int),
            assoc_map(dst@) == merged_map(m0, p, assoc_map(o.skip(src@.len() as int))),
            dst@.len() + src@.len() <= old(dst)@.len() + o.len(),
        decreases src@.len(),
    {
        let ghost r = src@.len() as int;
        let (k, v) = match src.pop() {
            Some(e) => e,
            None => { return; },
        };
        assert(encode_utf8(k@) == o[r - 1].0);
        assert(v.deep_view() == o[r - 1].1);
        let name = scoped_name(prefix, &k);
        let ghost before = assoc_map(dst@);
        assert(before == merged_map(m0, p, assoc_map(o.skip(r))));
        assert(encode_utf8(name@) == scoped_key(p, o[r - 1].0));
        dst.insert(name, v);
        assert(assoc_map(dst@) == before.insert(scoped_key(p, o[r - 1].0), o[r - 1].1));
        proof {
            assert(src@ =~= o.take(r - 1));
            assert(src@.len() == r - 1);
            let t = o.skip(r - 1);
            assert(keys_sorted(t)) by {
                assert forall|i: int, j: int| 0 <= i < j < t.len() implies crate::keys::bytes_lt(#[trigger] t[i].0, #[trigger] t[j].0) by {
                    assert(t[i] == o[i + r - 1] && t[j] == o[j + r - 1]);
                }
            }
            lemma_assoc_map_prepend(t);
            assert(t.drop_first() =~= o.skip(r));
            assert(t[0] == o[r - 1]);
            lemma_merged_insert(m0, p, assoc_map(o.skip(r)), o[r - 1].0, o[r - 1].1);
            assert(assoc_map(t) == assoc_map(o.skip(r)).insert(o[r - 1].0, o[r - 1].1));
            assert(assoc_map(dst@) == merged_map(m0, p, assoc_map(o.skip(r))).insert(scoped_key(p, o[r - 1].0), o[r - 1].1));
            assert(assoc_map(dst@) == merged_map(m0, p, assoc_map(t)));
        }
    }
    assert(o.skip(0) =~= o);
}

/// Adds `value` to `out` under `key` without its `scope.` prefix, when `key` has one.
fn add_if_in_scope<V: DeepClone>(out: &mut KeyedTable<V>, scope: &[u8], key: &String, value: &V)
    requires
        keys_sorted(old(out)@),
        valid_utf8(scope_prefix(scope@)),
    ensures
        keys_sorted(final(out)@),
        final(out)@.len() <= old(out)@.len() + 1,
        assoc_map(final(out)@) == if in_scope(scope@, encode_utf8(key@)) {
            assoc_map(old(out)@).insert(unscoped(scope@, encode_utf8(key@)), value.deep_view())
        } else {
            assoc_map(old(out)@)
        },
{
    let kb = key.as_str().as_bytes();
    let klen = kb.len();
    if starts_with_scope(kb, scope) {
        let start = scope.len() + 1;
        let rest = &kb[start..klen];
        proof {
            let kbs = kb@;
            vstd::utf8::encode_utf8_valid_utf8(key@);
            assert(rest@ == unscoped(scope@, kbs));
            assert(kbs.subrange(0, start as int) == scope_prefix(scope@));
            if !valid_utf8(kbs.subrange(start as int, kbs.len() as int)) {
                vstd::utf8::partial_valid_partial_invalid_utf8(kbs, start as int);
            }
        }
        match utf8_text(rest) {
            Some(name) => {
                let v = value.deep_clone();
                out.insert(name.to_owned(), v);
            },
            None => {},
        }
    }
}

/// The entries of `src` under `prefix.`, with that prefix removed.
fn scope_table<V: DeepClone>(src: &KeyedTable<V>, prefix: &str) -> (r: KeyedTable<V>)
    requires
        keys_sorted(src@),
    ensures
        keys_sorted(r@),
        assoc_map(r@) == scoped_map(assoc_map(src@), encode_utf8(prefix@)),
        r@.len() <= src@.len(),
{
    let ghost p = encode_utf8(prefix@);
    let ghost s = src@;
    let pb = prefix.as_bytes();
    let mut out: KeyedTable<V> = KeyedTable::new();
    let n = src.len();
    proof {
        assert(s.take(0) =~= Seq::<(Seq<u8>, V::V)>::empty());
        assert(assoc_map(s.take(0)) =~= Map::<Seq<u8>, V::V>::empty());
        assert(scoped_map(Map::<Seq<u8>, V::V>::empty(), p) =~= Map::<Seq<u8>, V::V>::empty());
        assert(assoc_map(out@) =~= Map::<Seq<u8>, V::V>::empty());
        vstd::utf8::encode_utf8_valid_utf8(prefix@ + seq!['.']);
        lemma_encode_utf8_concat(prefix@, seq!['.']);
        lemma_encode_dot();
        assert(encode_utf8(prefix@) + seq![0x2Eu8] =~= scope_prefix(p));
    }
    let mut i: usize = 0;
    while i < n
        invariant
            n == s.len(),
            s == src@,
            i <= n,
            keys_sorted(s),
            keys_sorted(out@),
            pb@ == p,
            valid_utf8(scope_prefix(p)),
            out@.len() <= i,
            assoc_map(out@) == scoped_map(assoc_map(s.take(i as int)), p),
        decreases n - i,
    {
        proof {
            let t = s.take(i as int + 1);
            assert(keys_sorted(t));
            assert(t.drop_last() =~= s.take(i as int));
            assert(t.last() == s[i as int]);
            lemma_assoc_map_push(t);
            lemma_scoped_insert(assoc_map(s.take(i as int)), p, s[i as int].0, s[i as int].1);
        }
        add_if_in_scope(&mut out, pb, src.key_at(i), src.value_at(i));
        i = i + 1;
    }
    assert(s.take(n as int) =~= s);
    out
}


/// One entry read from a file.
enum Entry {
    Scalar(String, u64),
    Vector(String, Vec<u32>),
    Matrix(String, Vec<Vec<u32>>),
    Strings(String, Vec<String>),
}

spec fn entry_view(e: &Entry) -> EntryView {
    match e {
        Entry::Scalar(k, v) => EntryView::Scalar(encode_utf8(k@), *v),
        Entry::Vector(k, v) => EntryView::Vector(encode_utf8(k@), v.deep_view()),
        Entry::Matrix(k, v) => EntryView::Matrix(encode_utf8(k@), v.deep_view()),
        Entry::Strings(k, v) => EntryView::Strings(encode_utf8(k@), v.deep_view()),
    }
}

fn read_entry_at(b: &[u8], pos: usize) -> (r: Result<(Entry, usize), CheckpointError>)
    ensures
        match take_entry(b@, pos as int) {
            Ok((e, p)) => r is Ok && entry_view(&r->Ok_0.0) == e && r->Ok_0.1 == p,
            Err(e) => r is Err && r->Err_0 == e,
        },
        r is Ok ==> r->Ok_0.1 <= b@.len(),
{
    reveal(take_entry);
    let (kind, p) = match read_u8_at(b, pos) {
        Ok(x) => x,
        Err(e) => return Err(e),
    };
    let (key, q) = match read_text_at(b, p) {
        Ok(x) => x,
        Err(e) => return Err(e),
    };
    if kind == KIND_SCALAR {
        match read_u64_at(b, q) {
            Ok((v, r)) => Ok((Entry::Scalar(key, v), r)),
            Err(e) => Err(e),
        }
    } else if kind == KIND_VECTOR {
        match read_u32s_at(b, q) {
            Ok((v, r)) => Ok((Entry::Vector(key, v), r)),
            Err(e) => Err(e),
        }
    } else if kind == KIND_MATRIX {
        match read_rows_at(b, q) {
            Ok((v, r)) => Ok((Entry::Matrix(key, v), r)),
            Err(e) => Err(e),
        }
    } else if kind == KIND_STRINGS {
        match read_texts_at(b, q) {
            Ok((v, r)) => Ok((Entry::Strings(key, v), r)),
            Err(e) => Err(e),
        }
    } else {
        Err(CheckpointError::UnknownEntryKind(kind))
    }
}

proof fn lemma_entries_err(b: Seq<u8>, pos: int, k: nat, m: nat)
    requires
        k <= m,
        take_entries(b, pos, k) is Err,
    ensures
        take_entries(b, pos, m) == take_entries(b, pos, k),
    decreases m - k,
{
    if m > k {
        lemma_entries_err(b, pos, k, (m - 1) as nat);
    }
}

proof fn lemma_take_entries_step(b: Seq<u8>, i: nat, es: Seq<EntryView>, p: int, e: EntryView, q: int)
    requires
        take_entries(b, 16, i) == Ok::<(Seq<EntryView>, int), CheckpointError>((es, p)),
        take_entry(b, p) == Ok::<(EntryView, int), CheckpointError>((e, q)),
    ensures
        take_entries(b, 16, i + 1) == Ok::<(Seq<EntryView>, int), CheckpointError>((es.push(e), q)),
{
    assert((i + 1) as nat - 1 == i);
}

proof fn lemma_take_entries_fail(b: Seq<u8>, i: nat, es: Seq<EntryView>, p: int, e: CheckpointError, n: nat)
    requires
        i < n,
        take_entries(b, 16, i) == Ok::<(Seq<EntryView>, int), CheckpointError>((es, p)),
        take_entry(b, p) == Err::<(EntryView, int), CheckpointError>(e),
    ensures
        take_entries(b, 16, n) == Err::<(Seq<EntryView>, int), CheckpointError>(e),
{
    assert((i + 1) as nat - 1 == i);
    lemma_entries_err(b, 16, i + 1, n);
}

proof fn lemma_apply_push(es: Seq<EntryView>, e: EntryView)
    ensures
        apply_entries(WeightMaps::empty(), es.push(e)) == apply_entries(WeightMaps::empty(), es).apply(e),
{
    assert(es.push(e).drop_last() =~= es);
}

/// Named scalars, vectors, matrices and string lists.
///
/// Vector and matrix elements are the bit patterns (`f32::to_bits`) of `f32`
/// values. Keys are kept in increasing byte order, the order in which they
/// are written.
pub struct WeightMap {
    scalars: KeyedTable<u64>,
    vectors: KeyedTable<Vec<u32>>,
    matrices: KeyedTable<Vec<Vec<u32>>>,
    strings: KeyedTable<Vec<String>>,
}

impl View for WeightMap {
    type V = WeightMapView;

    closed spec fn view(&self) -> WeightMapView {
        WeightMapView {
            scalars: self.scalars@,
            vectors: self.vectors@,
            matrices: self.matrices@,
            strings: self.strings@,
        }
    }
}

fn write_scalar_entries(out: &mut Vec<u8>, t: &KeyedTable<u64>)
    requires
        keys_sorted(t@),
    ensures
        final(out)@ == old(out)@ + concat_map(t@, |e: (Seq<u8>, u64)| enc_scalar_entry(e)),
        keys_fit(t@),
{
    let ghost f = |e: (Seq<u8>, u64)| enc_scalar_entry(e);
    let ghost start = out@;
    proof {
        t.lemma_keys_utf8();
    }
    let n = t.len();
    let mut i: usize = 0;
    while i < n
        invariant
            n == t@.len(),
            f == (|e: (Seq<u8>, u64)| enc_scalar_entry(e)),
            i <= n,
            out@ == start + concat_map(t@.take(i as int), f),
            forall|j: int| 0 <= j < t@.len() ==> valid_utf8(#[trigger] t@[j].0),
            forall|j: int| 0 <= j < i ==> fits_u64(#[trigger] t@[j].0.len()),
        decreases n - i,
    {
        proof {
            lemma_concat_map_take(t@, f, i as int);
        }
        out.push(KIND_SCALAR);
        write_text(out, t.key_at(i).as_str());
        push_u64(out, *t.value_at(i));
        assert(out@ =~= start + (concat_map(t@.take(i as int), f) + f(t@[i as int])));
        i = i + 1;
    }
    assert(t@.take(n as int) =~= t@);
}

fn write_vector_entries(out: &mut Vec<u8>, t: &KeyedTable<Vec<u32>>)
    requires
        keys_sorted(t@),
    ensures
        final(out)@ == old(out)@ + concat_map(t@, |e: (Seq<u8>, Seq<u32>)| enc_vector_entry(e)),
        keys_fit(t@),
        forall|j: int| 0 <= j < t@.len() ==> u32s_fit(#[trigger] t@[j].1),
{
    let ghost f = |e: (Seq<u8>, Seq<u32>)| enc_vector_entry(e);
    let ghost start = out@;
    proof {
        t.lemma_keys_utf8();
    }
    let n = t.len();
    let mut i: usize = 0;
    while i < n
        invariant
            n == t@.len(),
            f == (|e: (Seq<u8>, Seq<u32>)| enc_vector_entry(e)),
            i <= n,
            out@ == start + concat_map(t@.take(i as int), f),
            forall|j: int| 0 <= j < t@.len() ==> valid_utf8(#[trigger] t@[j].0),
            forall|j: int| 0 <= j < i ==> fits_u64(#[trigger] t@[j].0.len()),
            forall|j: int| 0 <= j < i ==> u32s_fit(#[trigger] t@[j].1),
        decreases n - i,
    {
        proof {
            lemma_concat_map_take(t@, f, i as int);
        }
        out.push(KIND_VECTOR);
        write_text(out, t.key_at(i).as_str());
        write_u32s(out, t.value_at(i));
        assert(out@ =~= start + (concat_map(t@.take(i as int), f) + f(t@[i as int])));
        i = i + 1;
    }
    assert(t@.take(n as int) =~= t@);
}

fn write_matrix_entries(out: &mut Vec<u8>, t: &KeyedTable<Vec<Vec<u32>>>)
    requires
        keys_sorted(t@),
    ensures
        final(out)@ == old(out)@ + concat_map(t@, |e: (Seq<u8>, Seq<Seq<u32>>)| enc_matrix_entry(e)),
        keys_fit(t@),
        forall|j: int| 0 <= j < t@.len() ==> rows_fit(#[trigger] t@[j].1),
{
    let ghost f = |e: (Seq<u8>, Seq<Seq<u32>>)| enc_matrix_entry(e);
    let ghost start = out@;
    proof {
        t.lemma_keys_utf8();
    }
    let n = t.len();
    let mut i: usize = 0;
    while i < n
        invariant
            n == t@.len(),
            f == (|e: (Seq<u8>, Seq<Seq<u32>>)| enc_matrix_entry(e)),
            i <= n,
            out@ == start + concat_map(t@.take(i as int), f),
            forall|j: int| 0 <= j < t@.len() ==> valid_utf8(#[trigger] t@[j].0),
            forall|j: int| 0 <= j < i ==> fits_u64(#[trigger] t@[j].0.len()),
            forall|j: int| 0 <= j < i ==> rows_fit(#[trigger] t@[j].1),
        decreases n - i,
    {
        proof {
            lemma_concat_map_take(t@, f, i as int);
        }
        out.push(KIND_MATRIX);
        write_text(out, t.key_at(i).as_str());
        write_rows(out, t.value_at(i));
        assert(out@ =~= start + (concat_map(t@.take(i as int), f) + f(t@[i as int])));
        i = i + 1;
    }
    assert(t@.take(n as int) =~= t@);
}

fn write_strings_entries(out: &mut Vec<u8>, t: &KeyedTable<Vec<String>>)
    requires
        keys_sorted(t@),
    ensures
        final(out)@ == old(out)@ + concat_map(t@, |e: (Seq<u8>, Seq<Seq<char>>)| enc_strings_entry(e)),
        keys_fit(t@),
        forall|j: int| 0 <= j < t@.len() ==> texts_fit(#[trigger] t@[j].1),
{
    let ghost f = |e: (Seq<u8>, Seq<Seq<char>>)| enc_strings_entry(e);
    let ghost start = out@;
    proof {
        t.lemma_keys_utf8();
    }
    let n = t.len();
    let mut i: usize = 0;
    while i < n
        invariant
            n == t@.len(),
            f == (|e: (Seq<u8>, Seq<Seq<char>>)| enc_strings_entry(e)),
            i <= n,
            out@ == start + concat_map(t@.take(i as int), f),
            forall|j: int| 0 <= j < t@.len() ==> valid_utf8(#[trigger] t@[j].0),
            forall|j: int| 0 <= j < i ==> fits_u64(#[trigger] t@[j].0.len()),
            forall|j: int| 0 <= j < i ==> texts_fit(#[trigger] t@[j].1),
        decreases n - i,
    {
        proof {
            lemma_concat_map_take(t@, f, i as int);
        }
        out.push(KIND_STRINGS);
        write_text(out, t.key_at(i).as_str());
        write_texts(out, t.value_at(i));
        assert(out@ =~= start + (concat_map(t@.take(i as int), f) + f(t@[i as int])));
        i = i + 1;
    }
    assert(t@.take(n as int) =~= t@);
}

impl WeightMap {
    #[verifier::type_invariant]
    spec fn sorted_inv(self) -> bool {
        &&& keys_sorted(self.scalars@)
        &&& keys_sorted(self.vectors@)
        &&& keys_sorted(self.matrices@)
        &&& keys_sorted(self.strings@)
    }

    /// An empty map.
    pub fn new() -> (m: Self)
        ensures
            m@ == WeightMapView::empty(),
            m@.maps() == WeightMaps::empty(),
    {
        let m = WeightMap {
            scalars: KeyedTable::new(),
            vectors: KeyedTable::new(),
            matrices: KeyedTable::new(),
            strings: KeyedTable::new(),
        };
        assert(assoc_map(Seq::<(Seq<u8>, u64)>::empty()) =~= Map::<Seq<u8>, u64>::empty());
        assert(assoc_map(Seq::<(Seq<u8>, Seq<u32>)>::empty()) =~= Map::<Seq<u8>, Seq<u32>>::empty());
        assert(assoc_map(Seq::<(Seq<u8>, Seq<Seq<u32>>)>::empty()) =~= Map::<Seq<u8>, Seq<Seq<u32>>>::empty());
        assert(assoc_map(Seq::<(Seq<u8>, Seq<Seq<char>>)>::empty()) =~= Map::<Seq<u8>, Seq<Seq<char>>>::empty());
        m
    }

    /// The total number of entries, when it fits in a `usize`.
    pub fn len(&self) -> (n: Option<usize>)
        ensures
            n.is_some() == (self@.entry_count() <= usize::MAX),
            n.is_some() ==> n.unwrap() == self@.entry_count(),
    {
        let a = self.scalars.len();
        let b = self.vectors.len();
        let c = self.matrices.len();
        let d = self.strings.len();
        match a.checked_add(b) {
            None => None,
            Some(ab) => match ab.checked_add(c) {
                None => None,
                Some(abc) => abc.checked_add(d),
            },
        }
    }

    /// Stores a scalar under `key`, replacing any earlier one.
    pub fn insert_scalar(&mut self, key: &str, v: u64)
        ensures
            final(self)@.maps() == old(self)@.maps().apply(EntryView::Scalar(encode_utf8(key@), v)),
            final(self)@.entry_count() == old(self)@.entry_count()
                + (if old(self)@.maps().scalars.contains_key(encode_utf8(key@)) { 0int } else { 1int }),
    {
        proof {
            use_type_invariant(&*self);
        }
        let mut t: KeyedTable<u64> = KeyedTable::new();
        std::mem::swap(&mut t, &mut self.scalars);
        t.insert(key.to_owned(), v);
        self.scalars = t;
    }

    /// Stores a vector of `f32` bit patterns.
    pub fn insert_vector(&mut self, key: &str, v: Vec<u32>)
        ensures
            final(self)@.maps() == old(self)@.maps().apply(EntryView::Vector(encode_utf8(key@), v@)),
            final(self)@.entry_count() == old(self)@.entry_count()
                + (if old(self)@.maps().vectors.contains_key(encode_utf8(key@)) { 0int } else { 1int }),
    {
        proof {
            use_type_invariant(&*self);
        }
        assert(v.deep_view() =~= v@);
        let mut t: KeyedTable<Vec<u32>> = KeyedTable::new();
        std::mem::swap(&mut t, &mut self.vectors);
        t.insert(key.to_owned(), v);
        self.vectors = t;
    }

    /// Stores a matrix of `f32` bit patterns, row by row.
    pub fn insert_matrix(&mut self, key: &str, v: Vec<Vec<u32>>)
        ensures
            final(self)@.maps() == old(self)@.maps().apply(EntryView::Matrix(encode_utf8(key@), v.deep_view())),
            final(self)@.entry_count() == old(self)@.entry_count()
                + (if old(self)@.maps().matrices.contains_key(encode_utf8(key@)) { 0int } else { 1int }),
    {
        proof {
            use_type_invariant(&*self);
        }
        let mut t: KeyedTable<Vec<Vec<u32>>> = KeyedTable::new();
        std::mem::swap(&mut t, &mut self.matrices);
        t.insert(key.to_owned(), v);
        self.matrices = t;
    }

    /// Stores a list of strings under `key`, replacing any earlier one.
    pub fn insert_strings(&mut self, key: &str, v: Vec<String>)
        ensures
            final(self)@.maps() == old(self)@.maps().apply(EntryView::Strings(encode_utf8(key@), v.deep_view())),
            final(self)@.entry_count() == old(self)@.entry_count()
                + (if old(self)@.maps().strings.contains_key(encode_utf8(key@)) { 0int } else { 1int }),
    {
        proof {
            use_type_invariant(&*self);
        }
        let mut t: KeyedTable<Vec<String>> = KeyedTable::new();
        std::mem::swap(&mut t, &mut self.strings);
        t.insert(key.to_owned(), v);
        self.strings = t;
    }

    /// The scalar under `key`, or `Missing`.
    pub fn get_scalar(&self, key: &str) -> (r: Result<u64, CheckpointError>)
        ensures
            r is Ok == self@.maps().scalars.contains_key(encode_utf8(key@)),
            r is Ok ==> r->Ok_0 == self@.maps().scalars[encode_utf8(key@)],
            r is Err ==> (r->Err_0 matches CheckpointError::Missing(kind, name) && kind == EntryKind::Scalar && name@ == key@),
    {
        proof {
            use_type_invariant(self);
        }
        match self.scalars.get(key.as_bytes()) {
            Some(v) => Ok(*v),
            None => Err(CheckpointError::Missing(EntryKind::Scalar, key.to_owned())),
        }
    }

    /// The vector under `key`, or `Missing`.
    pub fn get_vector(&self, key: &str) -> (r: Result<&Vec<u32>, CheckpointError>)
        ensures
            r is Ok == self@.maps().vectors.contains_key(encode_utf8(key@)),
            r is Ok ==> r->Ok_0@ == self@.maps().vectors[encode_utf8(key@)],
            r is Err ==> (r->Err_0 matches CheckpointError::Missing(kind, name) && kind == EntryKind::Vector && name@ == key@),
    {
        proof {
            use_type_invariant(self);
        }
        match self.vectors.get(key.as_bytes()) {
            Some(v) => {
                assert(v.deep_view() =~= v@);
                Ok(v)
            },
            None => Err(CheckpointError::Missing(EntryKind::Vector, key.to_owned())),
        }
    }

    /// The matrix under `key`, or `Missing`.
    pub fn get_matrix(&self, key: &str) -> (r: Result<&Vec<Vec<u32>>, CheckpointError>)
        ensures
            r is Ok == self@.maps().matrices.contains_key(encode_utf8(key@)),
            r is Ok ==> r->Ok_0.deep_view() == self@.maps().matrices[encode_utf8(key@)],
            r is Err ==> (r->Err_0 matches CheckpointError::Missing(kind, name) && kind == EntryKind::Matrix && name@ == key@),
    {
        proof {
            use_type_invariant(self);
        }
        match self.matrices.get(key.as_bytes()) {
            Some(v) => Ok(v),
            None => Err(CheckpointError::Missing(EntryKind::Matrix, key.to_owned())),
        }
    }

    /// The list of strings under `key`, or `Missing`.
    pub fn get_strings(&self, key: &str) -> (r: Result<&Vec<String>, CheckpointError>)
        ensures
            r is Ok == self@.maps().strings.contains_key(encode_utf8(key@)),
            r is Ok ==> r->Ok_0.deep_view() == self@.maps().strings[encode_utf8(key@)],
            r is Err ==> (r->Err_0 matches CheckpointError::Missing(kind, name) && kind == EntryKind::Strings && name@ == key@),
    {
        proof {
            use_type_invariant(self);
        }
        match self.strings.get(key.as_bytes()) {
            Some(v) => Ok(v),
            None => Err(CheckpointError::Missing(EntryKind::Strings, key.to_owned())),
        }
    }

    /// Adds every entry of `other` under the key `prefix.key`.
    pub fn merge(&mut self, prefix: &str, other: WeightMap)
        ensures
            final(self)@.maps() == old(self)@.maps().merged(encode_utf8(prefix@), other@.maps()),
            final(self)@.entry_count() <= old(self)@.entry_count() + other@.entry_count(),
    {
        proof {
            use_type_invariant(&*self);
            use_type_invariant(&other);
        }
        let WeightMap { scalars, vectors, matrices, strings } = other;
        let mut t: KeyedTable<u64> = KeyedTable::new();
        std::mem::swap(&mut t, &mut self.scalars);
        merge_table(&mut t, prefix, scalars);
        self.scalars = t;
        let mut t: KeyedTable<Vec<u32>> = KeyedTable::new();
        std::mem::swap(&mut t, &mut self.vectors);
        merge_table(&mut t, prefix, vectors);
        self.vectors = t;
        let mut t: KeyedTable<Vec<Vec<u32>>> = KeyedTable::new();
        std::mem::swap(&mut t, &mut self.matrices);
        merge_table(&mut t, prefix, matrices);
        self.matrices = t;
        let mut t: KeyedTable<Vec<String>> = KeyedTable::new();
        std::mem::swap(&mut t, &mut self.strings);
        merge_table(&mut t, prefix, strings);
        self.strings = t;
    }

    /// The entries whose keys begin with `prefix.`, with that part removed.
    pub fn scoped(&self, prefix: &str) -> (r: WeightMap)
        ensures
            r@.maps() == self@.maps().scoped(encode_utf8(prefix@)),
            r@.entry_count() <= self@.entry_count(),
    {
        proof {
            use_type_invariant(self);
        }
        WeightMap {
            scalars: scope_table(&self.scalars, prefix),
            vectors: scope_table(&self.vectors, prefix),
            matrices: scope_table(&self.matrices, prefix),
            strings: scope_table(&self.strings, prefix),
        }
    }

    /// The keys of the vectors, in increasing byte order.
    pub fn vector_keys(&self) -> (r: Vec<String>)
        ensures
            keys_sorted(self@.vectors),
            r@.len() == self@.vectors.len(),
            forall|i: int| 0 <= i < r@.len() ==> encode_utf8(#[trigger] r@[i]@) == self@.vectors[i].0,
            forall|k: Seq<u8>| self@.maps().vectors.contains_key(k) <==> exists|i: int| 0 <= i < r@.len() && encode_utf8(#[trigger] r@[i]@) == k,
    {
        proof {
            use_type_invariant(self);
        }
        let n = self.vectors.len();
        let mut out: Vec<String> = Vec::new();
        let mut i: usize = 0;
        while i < n
            invariant
                n == self@.vectors.len(),
                i <= n,
                out@.len() == i,
                forall|j: int| 0 <= j < i ==> encode_utf8(#[trigger] out@[j]@) == self@.vectors[j].0,
            decreases n - i,
        {
            out.push(self.vectors.key_at(i).clone());
            i = i + 1;
        }
        proof {
            assert forall|k: Seq<u8>| self@.maps().vectors.contains_key(k) implies exists|i: int| 0 <= i < out@.len() && encode_utf8(#[trigger] out@[i]@) == k by {
                let j = crate::table::key_index(self@.vectors, k);
                assert(encode_utf8(out@[j]@) == k);
            }
            assert forall|k: Seq<u8>| (exists|i: int| 0 <= i < out@.len() && encode_utf8(#[trigger] out@[i]@) == k) implies self@.maps().vectors.contains_key(k) by {
                let j = choose|i: int| 0 <= i < out@.len() && encode_utf8(#[trigger] out@[i]@) == k;
                assert(self@.vectors[j].0 == k);
            }
        }
        out
    }

    fn apply_entry(&mut self, e: Entry)
        ensures
            final(self)@.maps() == old(self)@.maps().apply(entry_view(&e)),
    {
        proof {
            use_type_invariant(&*self);
        }
        match e {
            Entry::Scalar(k, v) => {
                let mut t: KeyedTable<u64> = KeyedTable::new();
                std::mem::swap(&mut t, &mut self.scalars);
                t.insert(k, v);
                self.scalars = t;
            },
            Entry::Vector(k, v) => {
                let mut t: KeyedTable<Vec<u32>> = KeyedTable::new();
                std::mem::swap(&mut t, &mut self.vectors);
                t.insert(k, v);
                self.vectors = t;
            },
            Entry::Matrix(k, v) => {
                let mut t: KeyedTable<Vec<Vec<u32>>> = KeyedTable::new();
                std::mem::swap(&mut t, &mut self.matrices);
                t.insert(k, v);
                self.matrices = t;
            },
            Entry::Strings(k, v) => {
                let mut t: KeyedTable<Vec<String>> = KeyedTable::new();
                std::mem::swap(&mut t, &mut self.strings);
                t.insert(k, v);
                self.strings = t;
            },
        }
    }

    /// The checkpoint file for this map.
    pub fn write_to(&self) -> (bytes: Vec<u8>)
        requires
            self@.entry_count() <= usize::MAX,
        ensures
            bytes@ == encode_weight_map(self@),
            self@.wf(),
            decode_weight_map(bytes@) == Ok::<WeightMaps, CheckpointError>(self@.maps()),
    {
        proof {
            use_type_invariant(self);
            lemma_pow256_values();
        }
        let total = self.scalars.len() + self.vectors.len() + self.matrices.len() + self.strings.len();
        let mut out: Vec<u8> = Vec::new();
        out.push(0x54u8);
        out.push(0x46u8);
        out.push(0x57u8);
        out.push(0x4Du8);
        push_u32(&mut out, VERSION);
        push_u64(&mut out, total as u64);
        assert(out@ =~= enc_header(self@.entry_count()));
        write_scalar_entries(&mut out, &self.scalars);
        write_vector_entries(&mut out, &self.vectors);
        write_matrix_entries(&mut out, &self.matrices);
        write_strings_entries(&mut out, &self.strings);
        assert(out@ =~= encode_weight_map(self@));
        proof {
            crate::format::lemma_checkpoint_roundtrip(self@);
        }
        out
    }

    /// Reads a checkpoint file; bytes after the announced entries are ignored.
    pub fn read_from(b: &[u8]) -> (r: Result<WeightMap, CheckpointError>)
        ensures
            match decode_weight_map(b@) {
                Ok(m) => r is Ok && r->Ok_0@.maps() == m,
                Err(e) => r is Err && r->Err_0 == e,
            },
    {
        if b.len() < 4 {
            return Err(CheckpointError::UnexpectedEof);
        }
        if !(b[0] == 0x54u8 && b[1] == 0x46u8 && b[2] == 0x57u8 && b[3] == 0x4Du8) {
            assert(b@.subrange(0, 4) != magic()) by {
                if b@.subrange(0, 4) == magic() {
                    assert(b@[0] == b@.subrange(0, 4)[0]);
                    assert(b@[1] == b@.subrange(0, 4)[1]);
                    assert(b@[2] == b@.subrange(0, 4)[2]);
                    assert(b@[3] == b@.subrange(0, 4)[3]);
                }
            }
            return Err(CheckpointError::InvalidMagic);
        }
        assert(b@.subrange(0, 4) =~= magic());
        let (version, p) = match read_u32_at(b, 4) {
            Ok(x) => x,
            Err(e) => return Err(e),
        };
        if version != VERSION {
            return Err(CheckpointError::UnsupportedVersion(version));
        }
        let (n, q) = match read_u64_at(b, p) {
            Ok(x) => x,
            Err(e) => return Err(e),
        };
        let mut map = WeightMap::new();
        let mut pos = q;
        let mut i: u64 = 0;
        let ghost mut es: Seq<EntryView> = seq![];
        while i < n
            invariant
                i <= n,
                pos <= b@.len(),
                b@.len() >= 4,
                b@.subrange(0, 4) == magic(),
                take_u32(b@, 4) == Ok::<(u32, int), CheckpointError>((VERSION, 8)),
                take_u64(b@, 8) == Ok::<(u64, int), CheckpointError>((n, 16)),
                take_entries(b@, 16, i as nat) == Ok::<(Seq<EntryView>, int), CheckpointError>((es, pos as int)),
                map@.maps() == apply_entries(WeightMaps::empty(), es),
            decreases n - i,
        {
            match read_entry_at(b, pos) {
                Ok((e, next)) => {
                    proof {
                        lemma_take_entries_step(b@, i as nat, es, pos as int, entry_view(&e), next as int);
                        lemma_apply_push(es, entry_view(&e));
                        es = es.push(entry_view(&e));
                    }
                    map.apply_entry(e);
                    pos = next;
                },
                Err(e) => {
                    proof {
                        lemma_take_entries_fail(b@, i as nat, es, pos as int, e, n as nat);
                    }
                    return Err(e);
                },
            }
            i = i + 1;
        }
        Ok(map)
    }
}

} // verus!
