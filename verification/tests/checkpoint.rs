use transformer_gpu::checkpoint::WeightMap;
use transformer_gpu::format::{CheckpointError, EntryKind};

fn header(version: u32, count: u64) -> Vec<u8> {
    let mut b = b"TFWM".to_vec();
    b.extend_from_slice(&version.to_le_bytes());
    b.extend_from_slice(&count.to_le_bytes());
    b
}

fn push_key(b: &mut Vec<u8>, key: &[u8]) {
    b.extend_from_slice(&(key.len() as u64).to_le_bytes());
    b.extend_from_slice(key);
}

fn sample_map() -> WeightMap {
    let mut m = WeightMap::new();
    m.insert_scalar("step", 42);
    m.insert_scalar("alpha", u64::MAX);
    m.insert_vector("w", vec![1.5f32.to_bits(), (-2.0f32).to_bits()]);
    m.insert_matrix("m", vec![vec![1, 2, 3], vec![], vec![4]]);
    m.insert_strings("names", vec!["a".to_string(), "日本".to_string(), String::new()]);
    m
}

#[test]
fn written_checkpoint_reads_back() {
    let m = sample_map();
    let bytes = m.write_to();
    let r = WeightMap::read_from(&bytes).expect("readable");
    assert_eq!(r.len(), Some(5));
    assert_eq!(r.get_scalar("step"), Ok(42));
    assert_eq!(r.get_scalar("alpha"), Ok(u64::MAX));
    assert_eq!(r.get_vector("w").unwrap(), &vec![1.5f32.to_bits(), (-2.0f32).to_bits()]);
    assert_eq!(r.get_matrix("m").unwrap(), &vec![vec![1, 2, 3], vec![], vec![4]]);
    assert_eq!(
        r.get_strings("names").unwrap(),
        &vec!["a".to_string(), "日本".to_string(), String::new()]
    );
    assert_eq!(r.write_to(), bytes);
}

#[test]
fn checkpoint_layout_of_one_scalar() {
    let mut m = WeightMap::new();
    m.insert_scalar("k", 7);
    let mut exp = header(1, 1);
    exp.push(1);
    push_key(&mut exp, b"k");
    exp.extend_from_slice(&7u64.to_le_bytes());
    assert_eq!(m.write_to(), exp);
}

#[test]
fn entries_are_written_in_key_order() {
    let mut m = WeightMap::new();
    m.insert_scalar("b", 2);
    m.insert_scalar("a", 1);
    let mut exp = header(1, 2);
    exp.push(1);
    push_key(&mut exp, b"a");
    exp.extend_from_slice(&1u64.to_le_bytes());
    exp.push(1);
    push_key(&mut exp, b"b");
    exp.extend_from_slice(&2u64.to_le_bytes());
    assert_eq!(m.write_to(), exp);
}

#[test]
fn empty_map_round_trips() {
    let m = WeightMap::new();
    let bytes = m.write_to();
    assert_eq!(bytes, header(1, 0));
    let r = WeightMap::read_from(&bytes).unwrap();
    assert_eq!(r.len(), Some(0));
}

#[test]
fn trailing_bytes_are_ignored() {
    let mut bytes = header(1, 0);
    bytes.extend_from_slice(b"junk");
    assert!(WeightMap::read_from(&bytes).is_ok());
}

#[test]
fn short_file_is_unexpected_eof() {
    assert_eq!(WeightMap::read_from(b"TF").err(), Some(CheckpointError::UnexpectedEof));
    assert_eq!(WeightMap::read_from(b"TFWM\x01\x00").err(), Some(CheckpointError::UnexpectedEof));
    let mut b = header(1, 2);
    b.push(1);
    push_key(&mut b, b"k");
    b.extend_from_slice(&7u64.to_le_bytes());
    assert_eq!(WeightMap::read_from(&b).err(), Some(CheckpointError::UnexpectedEof));
}

#[test]
fn wrong_magic_is_rejected() {
    let mut b = header(1, 0);
    b[0] = b'X';
    assert_eq!(WeightMap::read_from(&b).err(), Some(CheckpointError::InvalidMagic));
}

#[test]
fn other_version_is_rejected() {
    let b = header(2, 0);
    assert_eq!(WeightMap::read_from(&b).err(), Some(CheckpointError::UnsupportedVersion(2)));
}

#[test]
fn unknown_entry_kind_is_rejected() {
    let mut b = header(1, 1);
    b.push(9);
    push_key(&mut b, b"k");
    b.extend_from_slice(&7u64.to_le_bytes());
    assert_eq!(WeightMap::read_from(&b).err(), Some(CheckpointError::UnknownEntryKind(9)));
}

#[test]
fn key_that_is_not_utf8_is_rejected() {
    let mut b = header(1, 1);
    b.push(1);
    push_key(&mut b, &[0xFF, 0xFE]);
    b.extend_from_slice(&7u64.to_le_bytes());
    assert_eq!(WeightMap::read_from(&b).err(), Some(CheckpointError::InvalidUtf8));
}

#[test]
fn later_entry_with_same_key_wins() {
    let mut b = header(1, 2);
    for v in [1u64, 2u64] {
        b.push(1);
        push_key(&mut b, b"k");
        b.extend_from_slice(&v.to_le_bytes());
    }
    let r = WeightMap::read_from(&b).unwrap();
    assert_eq!(r.get_scalar("k"), Ok(2));
    assert_eq!(r.len(), Some(1));
}

#[test]
fn missing_entries_name_kind_and_key() {
    let m = sample_map();
    assert_eq!(
        m.get_scalar("w").err(),
        Some(CheckpointError::Missing(EntryKind::Scalar, "w".to_string()))
    );
    assert_eq!(
        m.get_vector("step").err(),
        Some(CheckpointError::Missing(EntryKind::Vector, "step".to_string()))
    );
    assert_eq!(
        m.get_matrix("x").err(),
        Some(CheckpointError::Missing(EntryKind::Matrix, "x".to_string()))
    );
    assert_eq!(
        m.get_strings("x").err(),
        Some(CheckpointError::Missing(EntryKind::Strings, "x".to_string()))
    );
}

#[test]
fn insert_replaces_the_value() {
    let mut m = WeightMap::new();
    m.insert_scalar("k", 1);
    m.insert_scalar("k", 3);
    assert_eq!(m.get_scalar("k"), Ok(3));
    assert_eq!(m.len(), Some(1));
}

#[test]
fn scoped_gives_back_what_was_merged() {
    let mut inner = WeightMap::new();
    inner.insert_scalar("d_model", 64);
    inner.insert_vector("gamma", vec![1, 2]);
    let mut outer = WeightMap::new();
    outer.insert_scalar("meta.model.d_model", 1);
    outer.insert_scalar("meta.model.other", 5);
    outer.insert_scalar("meta.modelx", 9);
    outer.merge("meta.model", inner);
    assert_eq!(outer.get_scalar("meta.model.d_model"), Ok(64));
    assert_eq!(outer.get_vector("meta.model.gamma").unwrap(), &vec![1, 2]);
    let s = outer.scoped("meta.model");
    assert_eq!(s.get_scalar("d_model"), Ok(64));
    assert_eq!(s.get_scalar("other"), Ok(5));
    assert_eq!(s.get_vector("gamma").unwrap(), &vec![1, 2]);
    assert!(s.get_scalar("x").is_err());
    assert_eq!(s.len(), Some(3));
}

#[test]
fn vector_keys_are_listed_in_byte_order() {
    let mut m = WeightMap::new();
    m.insert_vector("v.b", vec![]);
    m.insert_vector("data.a", vec![]);
    m.insert_vector("m.a", vec![]);
    m.insert_scalar("s", 0);
    assert_eq!(m.vector_keys(), vec!["data.a".to_string(), "m.a".to_string(), "v.b".to_string()]);
}

#[test]
fn fresh_map_with_one_scalar_writes_exact_bytes() {
    let mut m = WeightMap::new();
    m.insert_scalar("a", 5);
    assert_eq!(
        m.write_to(),
        vec![
            b'T', b'F', b'W', b'M', 1, 0, 0, 0, 1, 0, 0, 0, 0, 0, 0, 0, 1, 1, 0, 0, 0, 0, 0, 0, 0, b'a', 5,
            0, 0, 0, 0, 0, 0, 0
        ]
    );
}
