//! Writing and reading the pieces of a checkpoint file.
use vstd::prelude::*;
use vstd::utf8::{encode_utf8, decode_utf8, valid_utf8};
use crate::le_bytes::{push_u64, push_u32, read_u64, read_u32, u64_le, u32_le, le_value, lemma_pow256_values};
use crate::format::{
    CheckpointError, concat_map, enc_bytes, enc_u32s, enc_rows, enc_texts, fits_u64, u32s_fit,
    rows_fit, texts_fit, take_u8, take_u64, take_u32, take_text_bytes, take_u32_items, take_u32s,
    take_row_items, take_rows, take_text_items, take_texts,
};

verus! {

/// `std::str::from_utf8`: the bytes read as text, when they are UTF-8.
#[verifier::external_body]
pub(crate) fn utf8_text(bytes: &[u8]) -> (r: Option<&str>)
    ensures
        r.is_some() == valid_utf8(bytes@),
        r.is_some() ==> encode_utf8(r.unwrap()@) == bytes@,
{
    std::str::from_utf8(bytes).ok()
}

pub proof fn lemma_concat_map_take<A>(s: Seq<A>, f: spec_fn(A) -> Seq<u8>, i: int)
    requires
        0 <= i < s.len(),
    ensures
        concat_map(s.take(i + 1), f) == concat_map(s.take(i), f) + f(s[i]),
{
    assert(s.take(i + 1).drop_last() =~= s.take(i));
}

/// Appends the bytes one by one.
pub fn push_bytes(out: &mut Vec<u8>, bytes: &[u8])
    ensures
        final(out)@ == old(out)@ + bytes@,
{
    let n = bytes.len();
    let mut i: usize = 0;
    while i < n
        invariant
            n == bytes@.len(),
            i <= n,
            out@ == old(out)@ + bytes@.take(i as int),
        decreases n - i,
    {
        out.push(bytes[i]);
        i = i + 1;
        assert(out@ =~= old(out)@ + bytes@.take(i as int));
    }
    assert(bytes@.take(n as int) =~= bytes@);
}

/// Appends a length-prefixed string.
pub fn write_text(out: &mut Vec<u8>, s: &str)
    ensures
        final(out)@ == old(out)@ + enc_bytes(encode_utf8(s@)),
        fits_u64(encode_utf8(s@).len()),
{
    let bytes = s.as_bytes();
    proof {
        lemma_pow256_values();
    }
    push_u64(out, bytes.len() as u64);
    push_bytes(out, bytes);
    assert(old(out)@ + enc_bytes(encode_utf8(s@)) =~= old(out)@ + u64_le(bytes.len() as u64) + bytes@);
}

/// Appends a length-prefixed list of `u32` values.
pub fn write_u32s(out: &mut Vec<u8>, v: &Vec<u32>)
    ensures
        final(out)@ == old(out)@ + enc_u32s(v.deep_view()),
        u32s_fit(v.deep_view()),
{
    let ghost f = |x: u32| u32_le(x);
    proof {
        lemma_pow256_values();
        assert(v.deep_view() =~= v@);
    }
    let n = v.len();
    push_u64(out, n as u64);
    let ghost start = out@;
    let mut i: usize = 0;
    while i < n
        invariant
            n == v@.len(),
            f == (|x: u32| u32_le(x)),
            i <= n,
            out@ == start + concat_map(v@.take(i as int), f),
        decreases n - i,
    {
        proof {
            lemma_concat_map_take(v@, f, i as int);
        }
        let ghost before = out@;
        push_u32(out, v[i]);
        assert(f(v@[i as int]) == u32_le(v@[i as int]));
        assert(out@ =~= start + (concat_map(v@.take(i as int), f) + f(v@[i as int])));
        i = i + 1;
    }
    assert(v@.take(n as int) =~= v@);
    assert(old(out)@ + enc_u32s(v.deep_view()) =~= old(out)@ + u64_le(n as u64) + concat_map(v@, f));
}

/// Appends a length-prefixed list of rows.
pub fn write_rows(out: &mut Vec<u8>, m: &Vec<Vec<u32>>)
    ensures
        final(out)@ == old(out)@ + enc_rows(m.deep_view()),
        rows_fit(m.deep_view()),
{
    let ghost f = |r: Seq<u32>| enc_u32s(r);
    let ghost dv = m.deep_view();
    proof {
        lemma_pow256_values();
    }
    let n = m.len();
    push_u64(out, n as u64);
    let ghost start = out@;
    let mut i: usize = 0;
    while i < n
        invariant
            n == m@.len(),
            f == (|r: Seq<u32>| enc_u32s(r)),
            dv == m.deep_view(),
            dv.len() == n,
            i <= n,
            out@ == start + concat_map(dv.take(i as int), f),
            forall|j: int| 0 <= j < i ==> u32s_fit(#[trigger] dv[j]),
        decreases n - i,
    {
        proof {
            lemma_concat_map_take(dv, f, i as int);
        }
        write_u32s(out, &m[i]);
        assert(f(dv[i as int]) == enc_u32s(dv[i as int]));
        assert(out@ =~= start + (concat_map(dv.take(i as int), f) + f(dv[i as int])));
        i = i + 1;
    }
    assert(dv.take(n as int) =~= dv);
    assert(old(out)@ + enc_rows(dv) =~= old(out)@ + u64_le(n as u64) + concat_map(dv, f));
}

/// Appends a length-prefixed list of strings.
pub fn write_texts(out: &mut Vec<u8>, ss: &Vec<String>)
    ensures
        final(out)@ == old(out)@ + enc_texts(ss.deep_view()),
        texts_fit(ss.deep_view()),
{
    let ghost f = |s: Seq<char>| enc_bytes(encode_utf8(s));
    let ghost dv = ss.deep_view();
    proof {
        lemma_pow256_values();
    }
    let n = ss.len();
    push_u64(out, n as u64);
    let ghost start = out@;
    let mut i: usize = 0;
    while i < n
        invariant
            n == ss@.len(),
            f == (|s: Seq<char>| enc_bytes(encode_utf8(s))),
            dv == ss.deep_view(),
            dv.len() == n,
            i <= n,
            out@ == start + concat_map(dv.take(i as int), f),
            forall|j: int| 0 <= j < i ==> fits_u64(#[trigger] encode_utf8(dv[j]).len()),
        decreases n - i,
    {
        proof {
            lemma_concat_map_take(dv, f, i as int);
        }
        write_text(out, ss[i].as_str());
        assert(f(dv[i as int]) == enc_bytes(encode_utf8(dv[i as int])));
        assert(out@ =~= start + (concat_map(dv.take(i as int), f) + f(dv[i as int])));
        i = i + 1;
    }
    assert(dv.take(n as int) =~= dv);
    assert(old(out)@ + enc_texts(dv) =~= old(out)@ + u64_le(n as u64) + concat_map(dv, f));
}


/* Readers. Each mirrors the reader of the same name in `format` on the bytes
   and position it is given. */

/// The byte at `pos` and the position after it.
pub fn read_u8_at(b: &[u8], pos: usize) -> (r: Result<(u8, usize), CheckpointError>)
    ensures
        match take_u8(b@, pos as int) {
            Ok((x, p)) => r is Ok && r->Ok_0.0 == x && r->Ok_0.1 == p,
            Err(e) => r is Err && r->Err_0 == e,
        },
{
    if pos < b.len() {
        Ok((b[pos], pos + 1))
    } else {
        Err(CheckpointError::UnexpectedEof)
    }
}

/// The little-endian `u64` at `pos` and the position after it.
pub fn read_u64_at(b: &[u8], pos: usize) -> (r: Result<(u64, usize), CheckpointError>)
    ensures
        match take_u64(b@, pos as int) {
            Ok((x, p)) => r is Ok && r->Ok_0.0 == x && r->Ok_0.1 == p,
            Err(e) => r is Err && r->Err_0 == e,
        },
{
    let len = b.len();
    if pos <= len && len - pos >= 8 {
        let v = read_u64(b, pos);
        Ok((v, pos + 8))
    } else {
        Err(CheckpointError::UnexpectedEof)
    }
}

/// The little-endian `u32` at `pos` and the position after it.
pub fn read_u32_at(b: &[u8], pos: usize) -> (r: Result<(u32, usize), CheckpointError>)
    ensures
        match take_u32(b@, pos as int) {
            Ok((x, p)) => r is Ok && r->Ok_0.0 == x && r->Ok_0.1 == p,
            Err(e) => r is Err && r->Err_0 == e,
        },
{
    let len = b.len();
    if pos <= len && len - pos >= 4 {
        let v = read_u32(b, pos);
        Ok((v, pos + 4))
    } else {
        Err(CheckpointError::UnexpectedEof)
    }
}

/// A length-prefixed UTF-8 string.
pub fn read_text_at(b: &[u8], pos: usize) -> (r: Result<(String, usize), CheckpointError>)
    ensures
        match take_text_bytes(b@, pos as int) {
            Ok((t, p)) => r is Ok && encode_utf8(r->Ok_0.0@) == t && r->Ok_0.1 == p,
            Err(e) => r is Err && r->Err_0 == e,
        },
{
    let (n, p) = match read_u64_at(b, pos) {
        Ok(x) => x,
        Err(e) => return Err(e),
    };
    let len = b.len();
    if n > (len - p) as u64 {
        return Err(CheckpointError::UnexpectedEof);
    }
    let end = p + n as usize;
    let slice = &b[p..end];
    assert(slice@ == b@.subrange(p as int, end as int));
    match utf8_text(slice) {
        Some(s) => Ok((s.to_owned(), end)),
        None => Err(CheckpointError::InvalidUtf8),
    }
}

proof fn lemma_u32_items_err(b: Seq<u8>, pos: int, k: nat, m: nat)
    requires
        k <= m,
        take_u32_items(b, pos, k) is Err,
    ensures
        take_u32_items(b, pos, m) == take_u32_items(b, pos, k),
    decreases m - k,
{
    if m > k {
        lemma_u32_items_err(b, pos, k, (m - 1) as nat);
    }
}

/// `n` little-endian `u32` words from `pos`.
pub fn read_u32_items(b: &[u8], pos: usize, n: u64) -> (r: Result<(Vec<u32>, usize), CheckpointError>)
    requires
        pos <= b@.len(),
    ensures
        match take_u32_items(b@, pos as int, n as nat) {
            Ok((v, p)) => r is Ok && r->Ok_0.0.deep_view() == v && r->Ok_0.1 == p,
            Err(e) => r is Err && r->Err_0 == e,
        },
{
    let mut out: Vec<u32> = Vec::new();
    let mut p = pos;
    let mut i: u64 = 0;
    assert(out@ =~= seq![]);
    while i < n
        invariant
            i <= n,
            p <= b@.len(),
            take_u32_items(b@, pos as int, i as nat) == Ok::<(Seq<u32>, int), CheckpointError>((out@, p as int)),
        decreases n - i,
    {
        match read_u32_at(b, p) {
            Ok((x, q)) => {
                out.push(x);
                p = q;
            },
            Err(e) => {
                proof {
                    lemma_u32_items_err(b@, pos as int, (i + 1) as nat, n as nat);
                }
                return Err(e);
            },
        }
        i = i + 1;
    }
    assert(out.deep_view() =~= out@);
    Ok((out, p))
}

/// A length-prefixed list of `u32` words at `pos`.
pub fn read_u32s_at(b: &[u8], pos: usize) -> (r: Result<(Vec<u32>, usize), CheckpointError>)
    ensures
        match take_u32s(b@, pos as int) {
            Ok((v, p)) => r is Ok && r->Ok_0.0.deep_view() == v && r->Ok_0.1 == p,
            Err(e) => r is Err && r->Err_0 == e,
        },
{
    match read_u64_at(b, pos) {
        Ok((n, p)) => read_u32_items(b, p, n),
        Err(e) => Err(e),
    }
}

proof fn lemma_row_items_err(b: Seq<u8>, pos: int, k: nat, m: nat)
    requires
        k <= m,
        take_row_items(b, pos, k) is Err,
    ensures
        take_row_items(b, pos, m) == take_row_items(b, pos, k),
    decreases m - k,
{
    if m > k {
        lemma_row_items_err(b, pos, k, (m - 1) as nat);
    }
}

/// `n` length-prefixed rows of `u32` words from `pos`.
pub fn read_row_items(b: &[u8], pos: usize, n: u64) -> (r: Result<(Vec<Vec<u32>>, usize), CheckpointError>)
    requires
        pos <= b@.len(),
    ensures
        match take_row_items(b@, pos as int, n as nat) {
            Ok((m, p)) => r is Ok && r->Ok_0.0.deep_view() == m && r->Ok_0.1 == p,
            Err(e) => r is Err && r->Err_0 == e,
        },
{
    let mut out: Vec<Vec<u32>> = Vec::new();
    let mut p = pos;
    let mut i: u64 = 0;
    assert(out.deep_view() =~= seq![]);
    while i < n
        invariant
            i <= n,
            p <= b@.len(),
            take_row_items(b@, pos as int, i as nat) == Ok::<(Seq<Seq<u32>>, int), CheckpointError>(
                (out.deep_view(), p as int)),
        decreases n - i,
    {
        match read_u32s_at(b, p) {
            Ok((row, q)) => {
                let ghost before = out.deep_view();
                out.push(row);
                assert(out.deep_view() =~= before.push(row.deep_view()));
                p = q;
            },
            Err(e) => {
                proof {
                    lemma_row_items_err(b@, pos as int, (i + 1) as nat, n as nat);
                }
                return Err(e);
            },
        }
        i = i + 1;
    }
    Ok((out, p))
}

/// A count-prefixed list of rows at `pos`.
pub fn read_rows_at(b: &[u8], pos: usize) -> (r: Result<(Vec<Vec<u32>>, usize), CheckpointError>)
    ensures
        match take_rows(b@, pos as int) {
            Ok((m, p)) => r is Ok && r->Ok_0.0.deep_view() == m && r->Ok_0.1 == p,
            Err(e) => r is Err && r->Err_0 == e,
        },
{
    match read_u64_at(b, pos) {
        Ok((n, p)) => read_row_items(b, p, n),
        Err(e) => Err(e),
    }
}

proof fn lemma_text_items_err(b: Seq<u8>, pos: int, k: nat, m: nat)
    requires
        k <= m,
        take_text_items(b, pos, k) is Err,
    ensures
        take_text_items(b, pos, m) == take_text_items(b, pos, k),
    decreases m - k,
{
    if m > k {
        lemma_text_items_err(b, pos, k, (m - 1) as nat);
    }
}

/// `n` length-prefixed UTF-8 strings from `pos`.
pub fn read_text_items(b: &[u8], pos: usize, n: u64) -> (r: Result<(Vec<String>, usize), CheckpointError>)
    requires
        pos <= b@.len(),
    ensures
        match take_text_items(b@, pos as int, n as nat) {
            Ok((ss, p)) => r is Ok && r->Ok_0.0.deep_view() == ss && r->Ok_0.1 == p,
            Err(e) => r is Err && r->Err_0 == e,
        },
{
    let mut out: Vec<String> = Vec::new();
    let mut p = pos;
    let mut i: u64 = 0;
    assert(out.deep_view() =~= seq![]);
    while i < n
        invariant
            i <= n,
            p <= b@.len(),
            take_text_items(b@, pos as int, i as nat) == Ok::<(Seq<Seq<char>>, int), CheckpointError>(
                (out.deep_view(), p as int)),
        decreases n - i,
    {
        match read_text_at(b, p) {
            Ok((s, q)) => {
                let ghost before = out.deep_view();
                proof {
                    vstd::utf8::encode_utf8_decode_utf8(s@);
                }
                out.push(s);
                assert(out.deep_view() =~= before.push(s@));
                p = q;
            },
            Err(e) => {
                proof {
                    lemma_text_items_err(b@, pos as int, (i + 1) as nat, n as nat);
                }
                return Err(e);
            },
        }
        i = i + 1;
    }
    Ok((out, p))
}

/// A count-prefixed list of strings at `pos`.
pub fn read_texts_at(b: &[u8], pos: usize) -> (r: Result<(Vec<String>, usize), CheckpointError>)
    ensures
        match take_texts(b@, pos as int) {
            Ok((ss, p)) => r is Ok && r->Ok_0.0.deep_view() == ss && r->Ok_0.1 == p,
            Err(e) => r is Err && r->Err_0 == e,
        },
{
    match read_u64_at(b, pos) {
        Ok((n, p)) => read_text_items(b, p, n),
        Err(e) => Err(e),
    }
}

} // verus!
