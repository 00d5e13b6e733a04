//! Model hyper-parameters, and how a checkpoint records the ones that fix the
//! shapes of the weights.
use vstd::prelude::*;
use vstd::utf8::encode_utf8;
use crate::checkpoint::{Checkpointable, WeightMap};
use crate::format::{CheckpointError, EntryKind, EntryView, WeightMaps};

verus! {

/// Hyper-parameters of a decoder-only transformer. The three `f32` settings are
/// held as their IEEE-754 bit patterns.
pub struct ModelConfig {
    pub vocab_size: usize,
    pub d_model: usize,
    pub n_heads: usize,
    pub n_kv_heads: usize,
    pub d_ff: usize,
    pub n_layers: usize,
    pub max_seq_len: usize,
    pub dropout_p_bits: u32,
    pub eps_bits: u32,
    pub rope_base_bits: u32,
}

/// The shape settings a checkpoint records, in the order they are checked.
pub open spec fn config_scalars(c: ModelConfig) -> Seq<(Seq<char>, u64)> {
    seq![
        ("vocab_size"@, c.vocab_size as u64),
        ("d_model"@, c.d_model as u64),
        ("n_heads"@, c.n_heads as u64),
        ("n_kv_heads"@, c.n_kv_heads as u64),
        ("d_ff"@, c.d_ff as u64),
        ("n_layers"@, c.n_layers as u64),
        ("max_seq_len"@, c.max_seq_len as u64),
    ]
}

/// `m` with each of `entries` stored as a scalar, in order.
pub open spec fn insert_scalars(m: WeightMaps, entries: Seq<(Seq<char>, u64)>) -> WeightMaps
    decreases entries.len(),
{
    if entries.len() == 0 {
        m
    } else {
        insert_scalars(m, entries.drop_last()).apply(
            EntryView::Scalar(encode_utf8(entries.last().0), entries.last().1),
        )
    }
}

/// The outcome of comparing expected scalars with those of a map.
pub ghost enum ConfigCheck {
    Matches,
    Missing(Seq<char>),
    Mismatch(Seq<char>, u64, u64),
}

/// Compares `entries` with `scalars` in order and reports the first key that is
/// absent or holds another value.
pub open spec fn check_scalars(entries: Seq<(Seq<char>, u64)>, scalars: Map<Seq<u8>, u64>) -> ConfigCheck
    decreases entries.len(),
{
    if entries.len() == 0 {
        ConfigCheck::Matches
    } else {
        let key = encode_utf8(entries[0].0);
        if !scalars.contains_key(key) {
            ConfigCheck::Missing(entries[0].0)
        } else if scalars[key] != entries[0].1 {
            ConfigCheck::Mismatch(entries[0].0, entries[0].1, scalars[key])
        } else {
            check_scalars(entries.drop_first(), scalars)
        }
    }
}

/// `r` is what a check with outcome `c` returns.
pub open spec fn reports(c: ConfigCheck, r: Result<(), CheckpointError>) -> bool {
    match c {
        ConfigCheck::Matches => r is Ok,
        ConfigCheck::Missing(k) => r is Err && (r->Err_0 matches CheckpointError::Missing(kind, name)
            && kind == EntryKind::Scalar && name@ == k),
        ConfigCheck::Mismatch(k, expected, got) => r is Err && (r->Err_0 matches CheckpointError::ConfigMismatch(name, e, g)
            && name@ == k && e == expected && g == got),
    }
}

/// No two entries share a key.
pub open spec fn distinct_keys(entries: Seq<(Seq<char>, u64)>) -> bool {
    forall|i: int, j: int| 0 <= i < j < entries.len() ==> #[trigger] entries[i].0 != #[trigger] entries[j].0
}

pub proof fn lemma_insert_scalars_hold(m: WeightMaps, entries: Seq<(Seq<char>, u64)>)
    requires
        distinct_keys(entries),
    ensures
        forall|i: int| 0 <= i < entries.len() ==> {
            let s = insert_scalars(m, entries).scalars;
            &&& s.contains_key(encode_utf8(#[trigger] entries[i].0))
            &&& s[encode_utf8(entries[i].0)] == entries[i].1
        },
    decreases entries.len(),
{
    if entries.len() > 0 {
        let prefix = entries.drop_last();
        assert forall|i: int, j: int| 0 <= i < j < prefix.len() implies #[trigger] prefix[i].0 != #[trigger] prefix[j].0 by {
            assert(prefix[i] == entries[i] && prefix[j] == entries[j]);
        }
        lemma_insert_scalars_hold(m, prefix);
        let last = entries.last();
        assert forall|i: int| 0 <= i < entries.len() implies {
            let s = insert_scalars(m, entries).scalars;
            &&& s.contains_key(encode_utf8(#[trigger] entries[i].0))
            &&& s[encode_utf8(entries[i].0)] == entries[i].1
        } by {
            if i < entries.len() - 1 {
                assert(prefix[i] == entries[i]);
                assert(entries[i].0 != entries[entries.len() - 1].0);
                vstd::utf8::encode_utf8_decode_utf8(entries[i].0);
                vstd::utf8::encode_utf8_decode_utf8(last.0);
            }
        }
    }
}

pub proof fn lemma_check_all_present(entries: Seq<(Seq<char>, u64)>, scalars: Map<Seq<u8>, u64>)
    requires
        forall|i: int| 0 <= i < entries.len() ==> scalars.contains_key(encode_utf8(#[trigger] entries[i].0))
            && scalars[encode_utf8(entries[i].0)] == entries[i].1,
    ensures
        check_scalars(entries, scalars) == ConfigCheck::Matches,
    decreases entries.len(),
{
    if entries.len() > 0 {
        let rest = entries.drop_first();
        assert(scalars.contains_key(encode_utf8(entries[0].0)));
        assert forall|i: int| 0 <= i < rest.len() implies scalars.contains_key(encode_utf8(#[trigger] rest[i].0))
            && scalars[encode_utf8(rest[i].0)] == rest[i].1 by {
            assert(rest[i] == entries[i + 1]);
        }
        lemma_check_all_present(rest, scalars);
    }
}

/// Checking a configuration against the map it writes finds every setting in
/// place: restoring a configuration from its own weight map succeeds.
pub proof fn lemma_config_roundtrip(c: ModelConfig)
    ensures
        check_scalars(config_scalars(c), insert_scalars(WeightMaps::empty(), config_scalars(c)).scalars)
            == ConfigCheck::Matches,
{
    reveal_strlit("vocab_size");
    reveal_strlit("d_model");
    reveal_strlit("n_heads");
    reveal_strlit("n_kv_heads");
    reveal_strlit("d_ff");
    reveal_strlit("n_layers");
    reveal_strlit("max_seq_len");
    let e = config_scalars(c);
    assert forall|i: int, j: int| 0 <= i < j < e.len() implies #[trigger] e[i].0 != #[trigger] e[j].0 by {
        assert(e[i].0[0] != e[j].0[0] || e[i].0.len() != e[j].0.len() || e[i].0[2] != e[j].0[2]);
    }
    lemma_insert_scalars_hold(WeightMaps::empty(), e);
    lemma_check_all_present(e, insert_scalars(WeightMaps::empty(), e).scalars);
}

/// A comparison that finds every entry in place means the map holds each of
/// them.
proof fn lemma_check_matches_present(entries: Seq<(Seq<char>, u64)>, scalars: Map<Seq<u8>, u64>)
    requires
        check_scalars(entries, scalars) == ConfigCheck::Matches,
    ensures
        forall|i: int| 0 <= i < entries.len() ==> scalars.contains_key(encode_utf8(#[trigger] entries[i].0))
            && scalars[encode_utf8(entries[i].0)] == entries[i].1,
    decreases entries.len(),
{
    if entries.len() > 0 {
        let rest = entries.drop_first();
        lemma_check_matches_present(rest, scalars);
        assert forall|i: int| 0 <= i < entries.len() implies scalars.contains_key(encode_utf8(#[trigger] entries[i].0))
            && scalars[encode_utf8(entries[i].0)] == entries[i].1 by {
            if i > 0 {
                assert(entries[i] == rest[i - 1]);
            }
        }
    }
}

/// `s` holds each shape setting of `c` under its own name.
pub open spec fn records_config(s: Map<Seq<u8>, u64>, c: ModelConfig) -> bool {
    &&& s.contains_key(encode_utf8("vocab_size"@)) && s[encode_utf8("vocab_size"@)] == c.vocab_size as u64
    &&& s.contains_key(encode_utf8("d_model"@)) && s[encode_utf8("d_model"@)] == c.d_model as u64
    &&& s.contains_key(encode_utf8("n_heads"@)) && s[encode_utf8("n_heads"@)] == c.n_heads as u64
    &&& s.contains_key(encode_utf8("n_kv_heads"@)) && s[encode_utf8("n_kv_heads"@)] == c.n_kv_heads as u64
    &&& s.contains_key(encode_utf8("d_ff"@)) && s[encode_utf8("d_ff"@)] == c.d_ff as u64
    &&& s.contains_key(encode_utf8("n_layers"@)) && s[encode_utf8("n_layers"@)] == c.n_layers as u64
    &&& s.contains_key(encode_utf8("max_seq_len"@)) && s[encode_utf8("max_seq_len"@)] == c.max_seq_len as u64
}

/// The weight map of a configuration holds `vocab_size`, `d_model`, `n_heads`,
/// `n_kv_heads`, `d_ff`, `n_layers` and `max_seq_len`, each under its own name.
pub proof fn lemma_config_map_names(c: ModelConfig)
    ensures
        records_config(insert_scalars(WeightMaps::empty(), config_scalars(c)).scalars, c),
{
    reveal_strlit("vocab_size");
    reveal_strlit("d_model");
    reveal_strlit("n_heads");
    reveal_strlit("n_kv_heads");
    reveal_strlit("d_ff");
    reveal_strlit("n_layers");
    reveal_strlit("max_seq_len");
    let e = config_scalars(c);
    assert forall|i: int, j: int| 0 <= i < j < e.len() implies #[trigger] e[i].0 != #[trigger] e[j].0 by {
        assert(e[i].0[0] != e[j].0[0] || e[i].0.len() != e[j].0.len() || e[i].0[2] != e[j].0[2]);
    }
    lemma_insert_scalars_hold(WeightMaps::empty(), e);
    assert(e[0].0 == "vocab_size"@ && e[1].0 == "d_model"@ && e[2].0 == "n_heads"@);
    assert(e[3].0 == "n_kv_heads"@ && e[4].0 == "d_ff"@ && e[5].0 == "n_layers"@ && e[6].0 == "max_seq_len"@);
}

/// A loaded map passes the check of a configuration exactly when it holds each
/// shape setting of that configuration under its own name.
pub proof fn lemma_config_check_names(c: ModelConfig, s: Map<Seq<u8>, u64>)
    ensures
        (check_scalars(config_scalars(c), s) == ConfigCheck::Matches) <==> records_config(s, c),
{
    let e = config_scalars(c);
    assert(e[0].0 == "vocab_size"@ && e[1].0 == "d_model"@ && e[2].0 == "n_heads"@);
    assert(e[3].0 == "n_kv_heads"@ && e[4].0 == "d_ff"@ && e[5].0 == "n_layers"@ && e[6].0 == "max_seq_len"@);
    if check_scalars(e, s) == ConfigCheck::Matches {
        lemma_check_matches_present(e, s);
        assert(s.contains_key(encode_utf8(e[0].0)) && s.contains_key(encode_utf8(e[1].0)));
        assert(s.contains_key(encode_utf8(e[2].0)) && s.contains_key(encode_utf8(e[3].0)));
        assert(s.contains_key(encode_utf8(e[4].0)) && s.contains_key(encode_utf8(e[5].0)));
        assert(s.contains_key(encode_utf8(e[6].0)));
    }
    if records_config(s, c) {
        assert forall|i: int| 0 <= i < e.len() implies s.contains_key(encode_utf8(#[trigger] e[i].0))
            && s[encode_utf8(e[i].0)] == e[i].1 by {
            if i == 0 {} else if i == 1 {} else if i == 2 {} else if i == 3 {} else if i == 4 {} else if i == 5 {} else {}
        }
        lemma_check_all_present(e, s);
    }
}

/// `entries` hold the (key, value) pairs `cs`.
pub open spec fn lists(entries: Seq<(&str, u64)>, cs: Seq<(Seq<char>, u64)>) -> bool {
    &&& entries.len() == cs.len()
    &&& forall|j: int| 0 <= j < entries.len() ==> (#[trigger] entries[j]).0@ == cs[j].0 && entries[j].1 == cs[j].1
}

/// Stores each of `entries` as a scalar, in order.
pub(crate) fn insert_entries(map: &mut WeightMap, entries: &Vec<(&'static str, u64)>, Ghost(cs): Ghost<Seq<(Seq<char>, u64)>>)
    requires
        lists(entries@, cs),
    ensures
        final(map)@.maps() == insert_scalars(old(map)@.maps(), cs),
        final(map)@.entry_count() <= old(map)@.entry_count() + cs.len(),
{
    let ghost m0 = map@.maps();
    let ghost c0 = map@.entry_count();
    let mut i: usize = 0;
    assert(cs.take(0) =~= Seq::<(Seq<char>, u64)>::empty());
    while i < entries.len()
        invariant
            lists(entries@, cs),
            i <= entries@.len(),
            map@.maps() == insert_scalars(m0, cs.take(i as int)),
            map@.entry_count() <= c0 + i,
        decreases entries@.len() - i,
    {
        let (key, v) = entries[i];
        map.insert_scalar(key, v);
        proof {
            assert(cs.take(i + 1).drop_last() =~= cs.take(i as int));
        }
        i = i + 1;
    }
    assert(cs.take(i as int) =~= cs);
}

impl Default for ModelConfig {
    fn default() -> (c: Self)
        ensures
            c.vocab_size == 256,
            c.d_model == 64,
            c.n_heads == 4,
            c.n_kv_heads == 4,
            c.d_ff == 128,
            c.n_layers == 2,
            c.max_seq_len == 128,
            c.dropout_p_bits == 0x3DCC_CCCDu32,
            c.eps_bits == 0x3586_37BDu32,
            c.rope_base_bits == 0x461C_4000u32,
    {
        ModelConfig {
            vocab_size: 256,
            d_model: 64,
            n_heads: 4,
            n_kv_heads: 4,
            d_ff: 128,
            n_layers: 2,
            max_seq_len: 128,
            dropout_p_bits: 0x3DCC_CCCDu32,
            eps_bits: 0x3586_37BDu32,
            rope_base_bits: 0x461C_4000u32,
        }
    }
}

impl ModelConfig {
    /// Settings in the manner of Llama 3.2 (1B), with grouped-query attention.
    pub fn llama3_2() -> (c: Self)
        ensures
            c.vocab_size == 128_256,
            c.d_model == 2048,
            c.n_heads == 32,
            c.n_kv_heads == 8,
            c.d_ff == 8192,
            c.n_layers == 16,
            c.max_seq_len == 131_072,
            c.dropout_p_bits == 0,
            c.eps_bits == 0x3586_37BDu32,
            c.rope_base_bits == 0x48F4_2400u32,
    {
        ModelConfig {
            vocab_size: 128_256,
            d_model: 2048,
            n_heads: 32,
            n_kv_heads: 8,
            d_ff: 8192,
            n_layers: 16,
            max_seq_len: 131_072,
            dropout_p_bits: 0,
            eps_bits: 0x3586_37BDu32,
            rope_base_bits: 0x48F4_2400u32,
        }
    }

    /// Settings in the manner of GPT-2 small (124M).
    pub fn gpt2_small() -> (c: Self)
        ensures
            c.vocab_size == 50_257,
            c.d_model == 768,
            c.n_heads == 12,
            c.n_kv_heads == 12,
            c.d_ff == 3072,
            c.n_layers == 12,
            c.max_seq_len == 1024,
            c.dropout_p_bits == 0x3DCC_CCCDu32,
            c.eps_bits == 0x3727_C5ACu32,
            c.rope_base_bits == 0x461C_4000u32,
    {
        ModelConfig {
            vocab_size: 50_257,
            d_model: 768,
            n_heads: 12,
            n_kv_heads: 12,
            d_ff: 3072,
            n_layers: 12,
            max_seq_len: 1024,
            dropout_p_bits: 0x3DCC_CCCDu32,
            eps_bits: 0x3727_C5ACu32,
            rope_base_bits: 0x461C_4000u32,
        }
    }

    /// Settings for the tiny Shakespeare corpus.
    pub fn tiny_shakespeare() -> (c: Self)
        ensures
            c.vocab_size == 4000,
            c.d_model == 256,
            c.n_heads == 8,
            c.n_kv_heads == 8,
            c.d_ff == 1024,
            c.n_layers == 4,
            c.max_seq_len == 128,
            c.dropout_p_bits == 0,
            c.eps_bits == 0x3586_37BDu32,
            c.rope_base_bits == 0x461C_4000u32,
    {
        ModelConfig {
            vocab_size: 4000,
            d_model: 256,
            n_heads: 8,
            n_kv_heads: 8,
            d_ff: 1024,
            n_layers: 4,
            max_seq_len: 128,
            dropout_p_bits: 0,
            eps_bits: 0x3586_37BDu32,
            rope_base_bits: 0x461C_4000u32,
        }
    }

    /// The width of one attention head.
    pub fn d_head(&self) -> (r: usize)
        requires
            self.n_heads > 0,
        ensures
            r == self.d_model / self.n_heads,
    {
        self.d_model / self.n_heads
    }

    /// The recorded settings as (key, value) pairs, in checking order.
    fn scalar_entries(&self) -> (r: Vec<(&'static str, u64)>)
        ensures
            lists(r@, config_scalars(*self)),
    {
        let mut r: Vec<(&'static str, u64)> = Vec::new();
        r.push(("vocab_size", self.vocab_size as u64));
        r.push(("d_model", self.d_model as u64));
        r.push(("n_heads", self.n_heads as u64));
        r.push(("n_kv_heads", self.n_kv_heads as u64));
        r.push(("d_ff", self.d_ff as u64));
        r.push(("n_layers", self.n_layers as u64));
        r.push(("max_seq_len", self.max_seq_len as u64));
        r
    }
}

impl Checkpointable for ModelConfig {
    /// A map holding the shape settings as scalars.
    fn to_weight_map(&self) -> (map: WeightMap)
        ensures
            map@.maps() == insert_scalars(WeightMaps::empty(), config_scalars(*self)),
            map@.entry_count() <= 7,
    {
        let entries = self.scalar_entries();
        let mut map = WeightMap::new();
        insert_entries(&mut map, &entries, Ghost(config_scalars(*self)));
        map
    }

    /// Checks that `map` records the same shape settings; `self` is unchanged.
    fn from_weight_map(&mut self, map: &WeightMap) -> (r: Result<(), CheckpointError>)
        ensures
            *final(self) == *old(self),
            reports(check_scalars(config_scalars(*old(self)), map@.maps().scalars), r),
    {
        let entries = self.scalar_entries();
        let ghost cs = config_scalars(*self);
        let ghost s = map@.maps().scalars;
        let mut i: usize = 0;
        assert(cs.skip(0) =~= cs);
        while i < entries.len()
            invariant
                cs == config_scalars(*self),
                s == map@.maps().scalars,
                entries@.len() == cs.len(),
                forall|j: int| 0 <= j < entries@.len() ==> (#[trigger] entries@[j]).0@ == cs[j].0 && entries@[j].1 == cs[j].1,
                i <= entries@.len(),
                check_scalars(cs, s) == check_scalars(cs.skip(i as int), s),
            decreases entries@.len() - i,
        {
            let (key, expected) = entries[i];
            proof {
                assert(cs.skip(i as int)[0] == cs[i as int]);
                assert(cs.skip(i as int).drop_first() =~= cs.skip(i + 1));
            }
            match map.get_scalar(key) {
                Err(e) => {
                    return Err(e);
                },
                Ok(got) => {
                    if got != expected {
                        return Err(CheckpointError::ConfigMismatch(key.to_owned(), expected, got));
                    }
                },
            }
            i = i + 1;
        }
        assert(cs.skip(i as int) =~= Seq::<(Seq<char>, u64)>::empty());
        Ok(())
    }
}

} // verus!
