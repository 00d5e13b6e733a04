use transformer_gpu::keys::{compare_bytes, KeyOrder};
use transformer_gpu::le_bytes::{push_u32, push_u64, read_u32, read_u64};

#[test]
fn byte_keys_compare_lexicographically() {
    assert_eq!(compare_bytes(b"a", b"b"), KeyOrder::Less);
    assert_eq!(compare_bytes(b"ab", b"a"), KeyOrder::Greater);
    assert_eq!(compare_bytes(b"", b""), KeyOrder::Equal);
    assert_eq!(compare_bytes(b"abc", b"abd"), KeyOrder::Less);
    assert_eq!(compare_bytes(b"b", b"abc"), KeyOrder::Greater);
}

#[test]
fn little_endian_integers_round_trip() {
    let mut out = vec![9u8];
    push_u64(&mut out, 0x0102_0304_0506_0708);
    push_u32(&mut out, 0xA0B0_C0D0);
    assert_eq!(out, vec![9, 8, 7, 6, 5, 4, 3, 2, 1, 0xD0, 0xC0, 0xB0, 0xA0]);
    assert_eq!(read_u64(&out, 1), 0x0102_0304_0506_0708);
    assert_eq!(read_u32(&out, 9), 0xA0B0_C0D0);
}
