//! Little-endian encoding of fixed-width unsigned integers.
use vstd::prelude::*;

verus! {

pub open spec fn pow256(n: nat) -> nat
    decreases n,
{
    if n == 0 {
        1
    } else {
        256 * pow256((n - 1) as nat)
    }
}

/// The `n` least significant bytes of `v`, least significant first.
pub open spec fn le_bytes(v: nat, n: nat) -> Seq<u8>
    decreases n,
{
    if n == 0 {
        seq![]
    } else {
        seq![(v % 256) as u8] + le_bytes(v / 256, (n - 1) as nat)
    }
}

/// The number whose little-endian bytes are `b`.
pub open spec fn le_value(b: Seq<u8>) -> nat
    decreases b.len(),
{
    if b.len() == 0 {
        0
    } else {
        b[0] as nat + 256 * le_value(b.drop_first())
    }
}

pub open spec fn u64_le(v: u64) -> Seq<u8> {
    le_bytes(v as nat, 8)
}

pub open spec fn u32_le(v: u32) -> Seq<u8> {
    le_bytes(v as nat, 4)
}

pub proof fn lemma_pow256_values()
    ensures
        pow256(1) == 256,
        pow256(4) == 0x1_0000_0000,
        pow256(8) == 0x1_0000_0000_0000_0000,
{
    reveal_with_fuel(pow256, 9);
}

pub proof fn lemma_pow256_mono(m: nat, n: nat)
    requires
        m <= n,
    ensures
        pow256(m) <= pow256(n),
        pow256(m) >= 1,
    decreases n,
{
    if n > m {
        lemma_pow256_mono(m, (n - 1) as nat);
    } else if n > 0 {
        lemma_pow256_mono(0, (n - 1) as nat);
    }
}

pub proof fn lemma_le_bytes_len(v: nat, n: nat)
    ensures
        le_bytes(v, n).len() == n,
    decreases n,
{
    if n > 0 {
        lemma_le_bytes_len(v / 256, (n - 1) as nat);
    }
}

pub proof fn lemma_le_value_bound(b: Seq<u8>)
    ensures
        le_value(b) < pow256(b.len()),
    decreases b.len(),
{
    if b.len() > 0 {
        lemma_le_value_bound(b.drop_first());
    }
}

/// Decoding the bytes of a value that fits gives the value back.
pub proof fn lemma_le_roundtrip(v: nat, n: nat)
    requires
        v < pow256(n),
    ensures
        le_value(le_bytes(v, n)) == v,
        le_bytes(v, n).len() == n,
    decreases n,
{
    lemma_le_bytes_len(v, n);
    if n > 0 {
        assert(v / 256 < pow256((n - 1) as nat));
        lemma_le_roundtrip(v / 256, (n - 1) as nat);
        let b = le_bytes(v, n);
        assert(b.drop_first() =~= le_bytes(v / 256, (n - 1) as nat));
    }
}

/// Appends the `n` little-endian bytes of `v`.
pub fn push_le(out: &mut Vec<u8>, v: u64, n: usize)
    requires
        n <= 8,
        (v as nat) < pow256(n as nat),
    ensures
        final(out)@ == old(out)@ + le_bytes(v as nat, n as nat),
{
    let mut x: u64 = v;
    let mut i: usize = 0;
    while i < n
        invariant
            i <= n,
            old(out)@ + le_bytes(v as nat, n as nat) == out@ + le_bytes(x as nat, (n - i) as nat),
        decreases n - i,
    {
        let byte: u8 = (x % 256) as u8;
        proof {
            let rest = le_bytes(x as nat, (n - i) as nat);
            assert(rest =~= seq![byte] + le_bytes((x / 256) as nat, (n - i - 1) as nat));
            assert(out@.push(byte) + le_bytes((x / 256) as nat, (n - i - 1) as nat) =~= out@ + rest);
        }
        out.push(byte);
        x = x / 256;
        i = i + 1;
    }
    assert(le_bytes(x as nat, 0) =~= Seq::<u8>::empty());
    assert(out@ + Seq::<u8>::empty() =~= out@);
}

pub fn push_u64(out: &mut Vec<u8>, v: u64)
    ensures
        final(out)@ == old(out)@ + u64_le(v),
{
    proof {
        lemma_pow256_values();
    }
    push_le(out, v, 8);
}

pub fn push_u32(out: &mut Vec<u8>, v: u32)
    ensures
        final(out)@ == old(out)@ + u32_le(v),
{
    proof {
        lemma_pow256_values();
    }
    push_le(out, v as u64, 4);
}

/// Reads the `n` little-endian bytes at `pos`.
pub fn read_le(bytes: &[u8], pos: usize, n: usize) -> (r: u64)
    requires
        n <= 8,
        pos + n <= bytes@.len(),
    ensures
        r as nat == le_value(bytes@.subrange(pos as int, pos + n)),
{
    let len = bytes.len();
    let mut acc: u64 = 0;
    let mut i: usize = n;
    proof {
        lemma_pow256_values();
        lemma_pow256_mono(n as nat, 8);
        assert(bytes@.subrange(pos + n, pos + n).len() == 0);
    }
    while i > 0
        invariant
            n <= 8,
            pos + n <= bytes@.len(),
            len == bytes@.len(),
            i <= n,
            pow256(n as nat) <= pow256(8),
            pow256(8) == 0x1_0000_0000_0000_0000,
            acc as nat == le_value(bytes@.subrange(pos + i, pos + n)),
        decreases i,
    {
        i = i - 1;
        let ghost tail = bytes@.subrange(pos + i + 1, pos + n);
        let ghost whole = bytes@.subrange(pos + i, pos + n);
        proof {
            assert(whole.drop_first() =~= tail);
            lemma_le_value_bound(whole);
            lemma_pow256_mono((n - i) as nat, n as nat);
        }
        acc = acc * 256 + bytes[pos + i] as u64;
    }
    acc
}

pub fn read_u64(bytes: &[u8], pos: usize) -> (r: u64)
    requires
        pos + 8 <= bytes@.len(),
    ensures
        r as nat == le_value(bytes@.subrange(pos as int, pos + 8)),
{
    read_le(bytes, pos, 8)
}

pub fn read_u32(bytes: &[u8], pos: usize) -> (r: u32)
    requires
        pos + 4 <= bytes@.len(),
    ensures
        r as nat == le_value(bytes@.subrange(pos as int, pos + 4)),
{
    let v = read_le(bytes, pos, 4);
    proof {
        lemma_le_value_bound(bytes@.subrange(pos as int, pos + 4));
        lemma_pow256_values();
    }
    v as u32
}

} // verus!
