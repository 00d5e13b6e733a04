//! The weights of the language model, and how a checkpoint names them. Each
//! weight tensor is held as the bit patterns of its `f32` values.
use vstd::prelude::*;
use vstd::utf8::encode_utf8;
use crate::char_tokenizer::push_char;
use crate::checkpoint::{Checkpointable, DeepClone, WeightMap};
use crate::format::{CheckpointError, EntryKind, EntryView, WeightMaps};

verus! {

pub struct Attention {
    pub w_q: Vec<u32>,
    pub w_k: Vec<u32>,
    pub w_v: Vec<u32>,
    pub w_o: Vec<u32>,
}

pub struct Ffn {
    pub w_gate: Vec<u32>,
    pub w_up: Vec<u32>,
    pub w_down: Vec<u32>,
}

pub struct TransformerBlock {
    pub attn: Attention,
    pub ffn: Ffn,
    /// The gain of the normalisation before attention.
    pub gamma_1: Vec<u32>,
    /// The gain of the normalisation before the feed-forward network.
    pub gamma_2: Vec<u32>,
}

pub struct LanguageModel {
    pub embedding: Vec<u32>,
    pub blocks: Vec<TransformerBlock>,
    pub final_gamma: Vec<u32>,
    pub lm_head: Vec<u32>,
}

/// The character of a decimal digit.
pub open spec fn digit_char(d: nat) -> char {
    if d == 0 {
        '0'
    } else if d == 1 {
        '1'
    } else if d == 2 {
        '2'
    } else if d == 3 {
        '3'
    } else if d == 4 {
        '4'
    } else if d == 5 {
        '5'
    } else if d == 6 {
        '6'
    } else if d == 7 {
        '7'
    } else if d == 8 {
        '8'
    } else {
        '9'
    }
}

/// `n` written in decimal, without leading zeros.
pub open spec fn decimal(n: nat) -> Seq<char>
    decreases n,
{
    if n < 10 {
        seq![digit_char(n)]
    } else {
        decimal(n / 10).push(digit_char(n % 10))
    }
}

/// The name of weight `f` of a block, in checkpoint order.
pub open spec fn block_field_name(f: int) -> Seq<char> {
    if f == 0 {
        "gamma_1"@
    } else if f == 1 {
        "gamma_2"@
    } else if f == 2 {
        "wq"@
    } else if f == 3 {
        "wk"@
    } else if f == 4 {
        "wv"@
    } else if f == 5 {
        "wo"@
    } else if f == 6 {
        "w_gate"@
    } else if f == 7 {
        "w_up"@
    } else {
        "w_down"@
    }
}

/// The number of weight tensors of a model with `n_blocks` blocks.
pub open spec fn slot_count(n_blocks: nat) -> nat {
    3 + 9 * n_blocks
}

/// The checkpoint key of weight tensor `j`: the embedding, the final gain and
/// the output head, then `block.{i}.{name}` for the nine weights of each block.
pub open spec fn slot_name(j: int) -> Seq<char> {
    if j == 0 {
        "embedding"@
    } else if j == 1 {
        "final_gamma"@
    } else if j == 2 {
        "lm_head"@
    } else {
        "block."@ + decimal(((j - 3) / 9) as nat) + "."@ + block_field_name((j - 3) % 9)
    }
}

impl TransformerBlock {
    /// Weight `f` of the block, in checkpoint order.
    pub open spec fn field(&self, f: int) -> Seq<u32> {
        if f == 0 {
            self.gamma_1@
        } else if f == 1 {
            self.gamma_2@
        } else if f == 2 {
            self.attn.w_q@
        } else if f == 3 {
            self.attn.w_k@
        } else if f == 4 {
            self.attn.w_v@
        } else if f == 5 {
            self.attn.w_o@
        } else if f == 6 {
            self.ffn.w_gate@
        } else if f == 7 {
            self.ffn.w_up@
        } else {
            self.ffn.w_down@
        }
    }
}

impl LanguageModel {
    /// Weight tensor `j`, in checkpoint order.
    pub open spec fn slot(&self, j: int) -> Seq<u32> {
        if j == 0 {
            self.embedding@
        } else if j == 1 {
            self.final_gamma@
        } else if j == 2 {
            self.lm_head@
        } else {
            self.blocks@[(j - 3) / 9].field((j - 3) % 9)
        }
    }

    /// All weight tensors, in checkpoint order.
    pub open spec fn slots(&self) -> Seq<Seq<u32>> {
        Seq::new(slot_count(self.blocks@.len()), |j: int| self.slot(j))
    }
}

/// The character of digit `d`.
fn digit(d: usize) -> (c: char)
    requires
        d < 10,
    ensures
        c == digit_char(d as nat),
{
    match d {
        0 => '0',
        1 => '1',
        2 => '2',
        3 => '3',
        4 => '4',
        5 => '5',
        6 => '6',
        7 => '7',
        8 => '8',
        _ => '9',
    }
}

/// `n` written in decimal.
fn decimal_string(n: usize) -> (s: String)
    ensures
        s@ == decimal(n as nat),
    decreases n,
{
    if n < 10 {
        let mut s = String::new();
        push_char(&mut s, digit(n));
        assert(s@ =~= seq![digit_char(n as nat)]);
        s
    } else {
        let mut s = decimal_string(n / 10);
        push_char(&mut s, digit(n % 10));
        s
    }
}

/// The name of weight `f` of a block.
fn block_field_str(f: usize) -> (s: &'static str)
    requires
        f < 9,
    ensures
        s@ == block_field_name(f as int),
{
    match f {
        0 => "gamma_1",
        1 => "gamma_2",
        2 => "wq",
        3 => "wk",
        4 => "wv",
        5 => "wo",
        6 => "w_gate",
        7 => "w_up",
        _ => "w_down",
    }
}

/// The key of tensor `t` of the first three.
fn top_key(t: usize) -> (s: String)
    requires
        t < 3,
    ensures
        s@ == slot_name(t as int),
{
    if t == 0 {
        String::from_str("embedding")
    } else if t == 1 {
        String::from_str("final_gamma")
    } else {
        String::from_str("lm_head")
    }
}

/// The key of weight `f` of block `b`: `block.{b}.{name}`.
fn block_key(b: usize, f: usize) -> (s: String)
    requires
        f < 9,
    ensures
        s@ == slot_name(3 + 9 * b + f),
{
    let mut s = String::from_str("block.");
    let d = decimal_string(b);
    s.append(d.as_str());
    s.append(".");
    s.append(block_field_str(f));
    proof {
        let j: int = 3 + 9 * b + f;
        assert((j - 3) / 9 == b && (j - 3) % 9 == f);
    }
    s
}

/// The maps after storing weight tensors `0 .. n` of `values` under their keys, in order.
pub open spec fn insert_slots(m: WeightMaps, values: Seq<Seq<u32>>, n: nat) -> WeightMaps
    decreases n,
{
    if n == 0 {
        m
    } else {
        insert_slots(m, values, (n - 1) as nat).apply(EntryView::Vector(encode_utf8(slot_name(n - 1)), values[n - 1]))
    }
}

/// The weight map of a model.
pub open spec fn model_maps(model: LanguageModel) -> WeightMaps {
    insert_slots(WeightMaps::empty(), model.slots(), slot_count(model.blocks@.len()))
}

/// `after` holds what `vectors` holds under the keys of tensors `0 .. k`, and
/// what `before` held from `k` on.
pub open spec fn restored_up_to(before: Seq<Seq<u32>>, after: Seq<Seq<u32>>, vectors: Map<Seq<u8>, Seq<u32>>, k: int) -> bool {
    &&& after.len() == before.len()
    &&& forall|j: int| 0 <= j < k ==> #[trigger] after[j] == vectors[encode_utf8(slot_name(j))]
    &&& forall|j: int| k <= j < before.len() ==> #[trigger] after[j] == before[j]
}

proof fn lemma_digit_char(d: nat)
    requires
        d < 10,
    ensures
        digit_char(d) != '.',
        forall|e: nat| e < 10 && #[trigger] digit_char(e) == digit_char(d) ==> e == d,
{
}

/// A decimal numeral is non-empty, has no `.`, and has two digits or more from 10 on.
proof fn lemma_decimal_shape(n: nat)
    ensures
        decimal(n).len() >= 1,
        n >= 10 ==> decimal(n).len() >= 2,
        forall|i: int| 0 <= i < decimal(n).len() ==> #[trigger] decimal(n)[i] != '.',
    decreases n,
{
    if n < 10 {
        lemma_digit_char(n);
    } else {
        lemma_decimal_shape(n / 10);
        lemma_digit_char(n % 10);
        assert forall|i: int| 0 <= i < decimal(n).len() implies #[trigger] decimal(n)[i] != '.' by {
            if i < decimal(n / 10).len() {
                assert(decimal(n)[i] == decimal(n / 10)[i]);
            }
        }
    }
}

/// Different numbers have different numerals.
proof fn lemma_decimal_injective(a: nat, b: nat)
    requires
        decimal(a) == decimal(b),
    ensures
        a == b,
    decreases a,
{
    lemma_decimal_shape(a);
    lemma_decimal_shape(b);
    if a < 10 && b < 10 {
        assert(decimal(a)[0] == decimal(b)[0]);
        assert(decimal(a)[0] == digit_char(a) && decimal(b)[0] == digit_char(b));
        lemma_digit_char(a);
        assert(digit_char(b) == digit_char(a));
    } else if a >= 10 && b >= 10 {
        let da = decimal(a);
        let db = decimal(b);
        assert(da.last() == db.last());
        assert(da.last() == digit_char(a % 10));
        assert(db.last() == digit_char(b % 10));
        lemma_digit_char(a % 10);
        assert(digit_char(b % 10) == digit_char(a % 10));
        assert(b % 10 == a % 10);
        assert(da.drop_last() == decimal(a / 10));
        assert(db.drop_last() == decimal(b / 10));
        lemma_decimal_injective(a / 10, b / 10);
    } else {
        assert(decimal(a).len() != decimal(b).len());
    }
}

/// Different tensors have different keys.
pub proof fn lemma_slot_names_distinct(i: int, j: int)
    requires
        0 <= i < j,
    ensures
        slot_name(i) != slot_name(j),
{
    reveal_strlit("embedding");
    reveal_strlit("final_gamma");
    reveal_strlit("lm_head");
    reveal_strlit("block.");
    reveal_strlit(".");
    reveal_strlit("gamma_1");
    reveal_strlit("gamma_2");
    reveal_strlit("wq");
    reveal_strlit("wk");
    reveal_strlit("wv");
    reveal_strlit("wo");
    reveal_strlit("w_gate");
    reveal_strlit("w_up");
    reveal_strlit("w_down");
    if j < 3 {
        assert(slot_name(i)[0] != slot_name(j)[0]);
    } else if i < 3 {
        assert(slot_name(j)[0] == 'b');
        assert(slot_name(i)[0] != slot_name(j)[0]);
    } else {
        let bi: nat = ((i - 3) / 9) as nat;
        let bj: nat = ((j - 3) / 9) as nat;
        let fi: int = (i - 3) % 9;
        let fj: int = (j - 3) % 9;
        let di = decimal(bi);
        let dj = decimal(bj);
        lemma_decimal_shape(bi);
        lemma_decimal_shape(bj);
        let si = slot_name(i);
        let sj = slot_name(j);
        if si == sj {
            let ti = di + "."@ + block_field_name(fi);
            let tj = dj + "."@ + block_field_name(fj);
            assert(si == "block."@ + ti);
            assert(sj == "block."@ + tj);
            assert(ti =~= si.skip(6));
            assert(tj =~= sj.skip(6));
            assert(ti == tj);
            if di.len() < dj.len() {
                assert(ti[di.len() as int] == '.');
                assert(tj[di.len() as int] == dj[di.len() as int]);
            } else if dj.len() < di.len() {
                assert(tj[dj.len() as int] == '.');
                assert(ti[dj.len() as int] == di[dj.len() as int]);
            } else {
                assert(di =~= ti.take(di.len() as int));
                assert(dj =~= tj.take(dj.len() as int));
                lemma_decimal_injective(bi, bj);
                assert(block_field_name(fi) =~= ti.skip(di.len() as int + 1));
                assert(block_field_name(fj) =~= tj.skip(dj.len() as int + 1));
                if fi != fj {
                    assert(block_field_name(fi) != block_field_name(fj)) by {
                        assert(block_field_name(fi).len() != block_field_name(fj).len()
                            || block_field_name(fi)[block_field_name(fi).len() - 1] != block_field_name(fj)[block_field_name(fj).len() - 1]
                            || block_field_name(fi)[1] != block_field_name(fj)[1]);
                    }
                }
                assert(i == j);
            }
        }
    }
}

/// The map of stored tensors holds each of them under its key.
proof fn lemma_insert_slots_hold(m: WeightMaps, values: Seq<Seq<u32>>, n: nat)
    ensures
        forall|j: int| 0 <= j < n ==> {
            let v = insert_slots(m, values, n).vectors;
            &&& v.contains_key(encode_utf8(#[trigger] slot_name(j)))
            &&& v[encode_utf8(slot_name(j))] == values[j]
        },
    decreases n,
{
    if n > 0 {
        lemma_insert_slots_hold(m, values, (n - 1) as nat);
        assert forall|j: int| 0 <= j < n implies {
            let v = insert_slots(m, values, n).vectors;
            &&& v.contains_key(encode_utf8(#[trigger] slot_name(j)))
            &&& v[encode_utf8(slot_name(j))] == values[j]
        } by {
            if j < n - 1 {
                lemma_slot_names_distinct(j, n - 1);
                vstd::utf8::encode_utf8_decode_utf8(slot_name(j));
                vstd::utf8::encode_utf8_decode_utf8(slot_name(n - 1));
            }
        }
    }
}

/// Restoring a model of the same shape from the weight map of another succeeds
/// and gives it the other's weights.
pub proof fn lemma_model_roundtrip(saved: LanguageModel, before: Seq<Seq<u32>>, after: Seq<Seq<u32>>)
    requires
        before.len() == slot_count(saved.blocks@.len()),
    ensures
        forall|j: int| 0 <= j < before.len() ==> #[trigger] model_maps(saved).vectors.contains_key(encode_utf8(slot_name(j))),
        restored_up_to(before, after, model_maps(saved).vectors, before.len() as int) ==> after == saved.slots(),
{
    lemma_insert_slots_hold(WeightMaps::empty(), saved.slots(), slot_count(saved.blocks@.len()));
    if restored_up_to(before, after, model_maps(saved).vectors, before.len() as int) {
        assert(after =~= saved.slots());
    }
}

/// The key `block.{b}.{name}` of a weight of block `b`.
pub open spec fn block_weight_key(b: nat, name: Seq<char>) -> Seq<u8> {
    encode_utf8("block."@ + decimal(b) + "."@ + name)
}

/// `v` holds `x` under key `k`.
pub open spec fn holds(v: Map<Seq<u8>, Seq<u32>>, k: Seq<u8>, x: Seq<u32>) -> bool {
    v.contains_key(k) && v[k] == x
}

/// `v` holds each weight of block `blk`, number `b`, under its own name.
pub open spec fn holds_block(v: Map<Seq<u8>, Seq<u32>>, b: nat, blk: TransformerBlock) -> bool {
    &&& holds(v, block_weight_key(b, "gamma_1"@), blk.gamma_1@)
    &&& holds(v, block_weight_key(b, "gamma_2"@), blk.gamma_2@)
    &&& holds(v, block_weight_key(b, "wq"@), blk.attn.w_q@)
    &&& holds(v, block_weight_key(b, "wk"@), blk.attn.w_k@)
    &&& holds(v, block_weight_key(b, "wv"@), blk.attn.w_v@)
    &&& holds(v, block_weight_key(b, "wo"@), blk.attn.w_o@)
    &&& holds(v, block_weight_key(b, "w_gate"@), blk.ffn.w_gate@)
    &&& holds(v, block_weight_key(b, "w_up"@), blk.ffn.w_up@)
    &&& holds(v, block_weight_key(b, "w_down"@), blk.ffn.w_down@)
}

/// `v` holds every weight of `m` under its own name: `embedding`,
/// `final_gamma`, `lm_head`, and `block.{b}.{name}` for each weight of each block.
pub open spec fn holds_model(v: Map<Seq<u8>, Seq<u32>>, m: LanguageModel) -> bool {
    &&& holds(v, encode_utf8("embedding"@), m.embedding@)
    &&& holds(v, encode_utf8("final_gamma"@), m.final_gamma@)
    &&& holds(v, encode_utf8("lm_head"@), m.lm_head@)
    &&& forall|b: int| 0 <= b < m.blocks@.len() ==> holds_block(v, b as nat, #[trigger] m.blocks@[b])
}

/// Tensor `j` of a block is named `block.{b}.{name}` and holds that weight.
proof fn lemma_block_slots(m: LanguageModel, b: int)
    requires
        0 <= b < m.blocks@.len(),
    ensures
        forall|f: int| 0 <= f < 9 ==> {
            &&& #[trigger] slot_name(3 + 9 * b + f) == "block."@ + decimal(b as nat) + "."@ + block_field_name(f)
            &&& m.slot(3 + 9 * b + f) == m.blocks@[b].field(f)
        },
{
    assert forall|f: int| 0 <= f < 9 implies {
        &&& #[trigger] slot_name(3 + 9 * b + f) == "block."@ + decimal(b as nat) + "."@ + block_field_name(f)
        &&& m.slot(3 + 9 * b + f) == m.blocks@[b].field(f)
    } by {
        let j = 3 + 9 * b + f;
        assert((j - 3) / 9 == b && (j - 3) % 9 == f);
    }
}

/// The weight map of a model holds each weight under its own name.
pub proof fn lemma_model_map_names(m: LanguageModel)
    ensures
        holds_model(model_maps(m).vectors, m),
{
    let n = slot_count(m.blocks@.len());
    lemma_insert_slots_hold(WeightMaps::empty(), m.slots(), n);
    let v = model_maps(m).vectors;
    assert(slot_name(0) == "embedding"@ && slot_name(1) == "final_gamma"@ && slot_name(2) == "lm_head"@);
    assert(v[encode_utf8(slot_name(0))] == m.slots()[0]);
    assert(v[encode_utf8(slot_name(1))] == m.slots()[1]);
    assert(v[encode_utf8(slot_name(2))] == m.slots()[2]);
    assert forall|b: int| 0 <= b < m.blocks@.len() implies holds_block(v, b as nat, #[trigger] m.blocks@[b]) by {
        lemma_block_slots(m, b);
        assert forall|f: int| 0 <= f < 9 implies
            #[trigger] v.contains_key(encode_utf8(slot_name(3 + 9 * b + f)))
            && v[encode_utf8(slot_name(3 + 9 * b + f))] == m.blocks@[b].field(f) by {
            assert(3 + 9 * b + f < n);
            assert(m.slots()[3 + 9 * b + f] == m.slot(3 + 9 * b + f));
        }
        assert(v.contains_key(encode_utf8(slot_name(3 + 9 * b + 0))));
        assert(v.contains_key(encode_utf8(slot_name(3 + 9 * b + 1))));
        assert(v.contains_key(encode_utf8(slot_name(3 + 9 * b + 2))));
        assert(v.contains_key(encode_utf8(slot_name(3 + 9 * b + 3))));
        assert(v.contains_key(encode_utf8(slot_name(3 + 9 * b + 4))));
        assert(v.contains_key(encode_utf8(slot_name(3 + 9 * b + 5))));
        assert(v.contains_key(encode_utf8(slot_name(3 + 9 * b + 6))));
        assert(v.contains_key(encode_utf8(slot_name(3 + 9 * b + 7))));
        assert(v.contains_key(encode_utf8(slot_name(3 + 9 * b + 8))));
    }
}

/// A model whose every tensor was restored from `vectors` holds, in each
/// weight, the vector under that weight's own name.
pub proof fn lemma_model_restore_names(before: Seq<Seq<u32>>, after: LanguageModel, vectors: Map<Seq<u8>, Seq<u32>>)
    requires
        restored_up_to(before, after.slots(), vectors, after.slots().len() as int),
        forall|j: int| 0 <= j < after.slots().len() ==> #[trigger] vectors.contains_key(encode_utf8(slot_name(j))),
    ensures
        holds_model(vectors, after),
{
    let n = slot_count(after.blocks@.len());
    assert(after.slots()[0] == vectors[encode_utf8(slot_name(0))]);
    assert(after.slots()[1] == vectors[encode_utf8(slot_name(1))]);
    assert(after.slots()[2] == vectors[encode_utf8(slot_name(2))]);
    assert(vectors.contains_key(encode_utf8(slot_name(0))));
    assert(vectors.contains_key(encode_utf8(slot_name(1))));
    assert(vectors.contains_key(encode_utf8(slot_name(2))));
    assert forall|b: int| 0 <= b < after.blocks@.len() implies holds_block(vectors, b as nat, #[trigger] after.blocks@[b]) by {
        lemma_block_slots(after, b);
        assert forall|f: int| 0 <= f < 9 implies
            #[trigger] vectors.contains_key(encode_utf8(slot_name(3 + 9 * b + f)))
            && vectors[encode_utf8(slot_name(3 + 9 * b + f))] == after.blocks@[b].field(f) by {
            assert(3 + 9 * b + f < n);
            assert(after.slots()[3 + 9 * b + f] == after.slot(3 + 9 * b + f));
        }
        assert(vectors.contains_key(encode_utf8(slot_name(3 + 9 * b + 0))));
        assert(vectors.contains_key(encode_utf8(slot_name(3 + 9 * b + 1))));
        assert(vectors.contains_key(encode_utf8(slot_name(3 + 9 * b + 2))));
        assert(vectors.contains_key(encode_utf8(slot_name(3 + 9 * b + 3))));
        assert(vectors.contains_key(encode_utf8(slot_name(3 + 9 * b + 4))));
        assert(vectors.contains_key(encode_utf8(slot_name(3 + 9 * b + 5))));
        assert(vectors.contains_key(encode_utf8(slot_name(3 + 9 * b + 6))));
        assert(vectors.contains_key(encode_utf8(slot_name(3 + 9 * b + 7))));
        assert(vectors.contains_key(encode_utf8(slot_name(3 + 9 * b + 8))));
    }
}

impl LanguageModel {
    /// Tensor `t` of the first three.
    fn top_ref(&self, t: usize) -> (v: &Vec<u32>)
        requires
            t < 3,
        ensures
            v@ == self.slot(t as int),
    {
        if t == 0 {
            &self.embedding
        } else if t == 1 {
            &self.final_gamma
        } else {
            &self.lm_head
        }
    }

    /// Weight `f` of block `b`.
    fn block_ref(&self, b: usize, f: usize) -> (v: &Vec<u32>)
        requires
            b < self.blocks@.len(),
            f < 9,
        ensures
            v@ == self.slot(3 + 9 * b + f),
    {
        proof {
            let j: int = 3 + 9 * b + f;
            assert((j - 3) / 9 == b && (j - 3) % 9 == f);
        }
        let blk = &self.blocks[b];
        if f == 0 {
            &blk.gamma_1
        } else if f == 1 {
            &blk.gamma_2
        } else if f == 2 {
            &blk.attn.w_q
        } else if f == 3 {
            &blk.attn.w_k
        } else if f == 4 {
            &blk.attn.w_v
        } else if f == 5 {
            &blk.attn.w_o
        } else if f == 6 {
            &blk.ffn.w_gate
        } else if f == 7 {
            &blk.ffn.w_up
        } else {
            &blk.ffn.w_down
        }
    }

    /// Replaces tensor `t` of the first three.
    fn set_top(&mut self, t: usize, v: Vec<u32>)
        requires
            t < 3,
        ensures
            final(self).blocks@.len() == old(self).blocks@.len(),
            final(self).slots() == old(self).slots().update(t as int, v@),
    {
        let ghost vv = v@;
        if t == 0 {
            self.embedding = v;
        } else if t == 1 {
            self.final_gamma = v;
        } else {
            self.lm_head = v;
        }
        assert(self.slots() =~= old(self).slots().update(t as int, vv));
    }

    /// Replaces weight `f` of block `b`.
    fn set_block(&mut self, b: usize, f: usize, v: Vec<u32>)
        requires
            b < old(self).blocks@.len(),
            f < 9,
        ensures
            final(self).blocks@.len() == old(self).blocks@.len(),
            final(self).slots() == old(self).slots().update(3 + 9 * b + f, v@),
    {
        let ghost vv = v@;
        let ghost j: int = 3 + 9 * b + f;
        let blk = &mut self.blocks[b];
        if f == 0 {
            blk.gamma_1 = v;
        } else if f == 1 {
            blk.gamma_2 = v;
        } else if f == 2 {
            blk.attn.w_q = v;
        } else if f == 3 {
            blk.attn.w_k = v;
        } else if f == 4 {
            blk.attn.w_v = v;
        } else if f == 5 {
            blk.attn.w_o = v;
        } else if f == 6 {
            blk.ffn.w_gate = v;
        } else if f == 7 {
            blk.ffn.w_up = v;
        } else {
            blk.ffn.w_down = v;
        }
        proof {
            assert((j - 3) / 9 == b && (j - 3) % 9 == f);
            assert forall|i: int| 0 <= i < self.slots().len() implies #[trigger] self.slots()[i] == old(self).slots().update(j, vv)[i] by {
                if i >= 3 && i != j {
                    let bi = (i - 3) / 9;
                    if bi == b {
                        assert((i - 3) % 9 != f);
                    }
                }
            }
            assert(self.slots() =~= old(self).slots().update(j, vv));
        }
    }
}

impl Checkpointable for LanguageModel {
    /// Every weight tensor under its key.
    fn to_weight_map(&self) -> (map: WeightMap)
        ensures
            map@.maps() == model_maps(*self),
            map@.entry_count() <= slot_count(self.blocks@.len()),
    {
        let ghost vals = self.slots();
        let mut map = WeightMap::new();
        let mut t: usize = 0;
        while t < 3
            invariant
                vals == self.slots(),
                t <= 3,
                map@.maps() == insert_slots(WeightMaps::empty(), vals, t as nat),
                map@.entry_count() <= t,
            decreases 3 - t,
        {
            let key = top_key(t);
            let src = self.top_ref(t);
            let v = src.deep_clone();
            assert(v.deep_view() =~= v@ && src.deep_view() =~= src@);
            map.insert_vector(key.as_str(), v);
            t = t + 1;
        }
        let nb: usize = self.blocks.len();
        let mut b: usize = 0;
        while b < nb
            invariant
                vals == self.slots(),
                nb == self.blocks@.len(),
                b <= nb,
                map@.maps() == insert_slots(WeightMaps::empty(), vals, (3 + 9 * b) as nat),
                map@.entry_count() <= 3 + 9 * b,
            decreases nb - b,
        {
            let mut f: usize = 0;
            while f < 9
                invariant
                    vals == self.slots(),
                    nb == self.blocks@.len(),
                    b < nb,
                    f <= 9,
                    map@.maps() == insert_slots(WeightMaps::empty(), vals, (3 + 9 * b + f) as nat),
                    map@.entry_count() <= 3 + 9 * b + f,
                decreases 9 - f,
            {
                let key = block_key(b, f);
                let src = self.block_ref(b, f);
                let v = src.deep_clone();
                assert(v.deep_view() =~= v@ && src.deep_view() =~= src@);
                map.insert_vector(key.as_str(), v);
                f = f + 1;
            }
            b = b + 1;
        }
        map
    }

    /// Reads every weight tensor of the model's shape, in order, stopping at the
    /// first key that is missing; the tensors read before it are kept.
    fn from_weight_map(&mut self, map: &WeightMap) -> (r: Result<(), CheckpointError>)
        ensures
            final(self).blocks@.len() == old(self).blocks@.len(),
            (r is Ok) == (forall|j: int| 0 <= j < slot_count(old(self).blocks@.len())
                ==> #[trigger] map@.maps().vectors.contains_key(encode_utf8(slot_name(j)))),
            r is Ok ==> restored_up_to(old(self).slots(), final(self).slots(), map@.maps().vectors, slot_count(old(self).blocks@.len()) as int),
            r is Err ==> exists|k: int| {
                &&& 0 <= k < slot_count(old(self).blocks@.len())
                &&& !map@.maps().vectors.contains_key(encode_utf8(#[trigger] slot_name(k)))
                &&& forall|j: int| 0 <= j < k ==> #[trigger] map@.maps().vectors.contains_key(encode_utf8(slot_name(j)))
                &&& restored_up_to(old(self).slots(), final(self).slots(), map@.maps().vectors, k)
                &&& r->Err_0 matches CheckpointError::Missing(kind, name) && kind == EntryKind::Vector && name@ == slot_name(k)
            },
    {
        let ghost before = self.slots();
        let ghost vectors = map@.maps().vectors;
        let mut t: usize = 0;
        while t < 3
            invariant
                self.blocks@.len() == old(self).blocks@.len(),
                before == old(self).slots(),
                vectors == map@.maps().vectors,
                t <= 3,
                forall|i: int| 0 <= i < t ==> #[trigger] vectors.contains_key(encode_utf8(slot_name(i))),
                restored_up_to(before, self.slots(), vectors, t as int),
            decreases 3 - t,
        {
            let key = top_key(t);
            match map.get_vector(key.as_str()) {
                Ok(x) => {
                    let v = x.deep_clone();
                    assert(v.deep_view() =~= v@ && x.deep_view() =~= x@);
                    self.set_top(t, v);
                },
                Err(e) => {
                    assert(!vectors.contains_key(encode_utf8(slot_name(t as int))));
                    return Err(e);
                },
            }
            t = t + 1;
        }
        let nb: usize = self.blocks.len();
        let mut b: usize = 0;
        while b < nb
            invariant
                nb == self.blocks@.len(),
                self.blocks@.len() == old(self).blocks@.len(),
                before == old(self).slots(),
                vectors == map@.maps().vectors,
                b <= nb,
                forall|i: int| 0 <= i < 3 + 9 * b ==> #[trigger] vectors.contains_key(encode_utf8(slot_name(i))),
                restored_up_to(before, self.slots(), vectors, 3 + 9 * b),
            decreases nb - b,
        {
            let mut f: usize = 0;
            while f < 9
                invariant
                    nb == self.blocks@.len(),
                    self.blocks@.len() == old(self).blocks@.len(),
                    before == old(self).slots(),
                    vectors == map@.maps().vectors,
                    b < nb,
                    f <= 9,
                    forall|i: int| 0 <= i < 3 + 9 * b + f ==> #[trigger] vectors.contains_key(encode_utf8(slot_name(i))),
                    restored_up_to(before, self.slots(), vectors, 3 + 9 * b + f),
                decreases 9 - f,
            {
                let key = block_key(b, f);
                match map.get_vector(key.as_str()) {
                    Ok(x) => {
                        let v = x.deep_clone();
                        assert(v.deep_view() =~= v@ && x.deep_view() =~= x@);
                        self.set_block(b, f, v);
                    },
                    Err(e) => {
                        assert(!vectors.contains_key(encode_utf8(slot_name(3 + 9 * b + f))));
                        return Err(e);
                    },
                }
                f = f + 1;
            }
            b = b + 1;
        }
        Ok(())
    }
}

} // verus!
