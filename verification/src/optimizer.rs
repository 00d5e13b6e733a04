//! The state of the AdamW optimizer and how a checkpoint records it. Every
//! real-valued setting and every weight or moment is held as the bit pattern
//! of an `f32`; the update rule itself is real arithmetic on those values.
use vstd::prelude::*;
use vstd::utf8::encode_utf8;
use vstd::utf8::{is_ascii_chars, is_ascii_chars_encode_utf8};
use crate::checkpoint::{Checkpointable, DeepClone, WeightMap, scoped_name};
use crate::keys::lemma_bytes_lt_irreflexive;
use crate::format::{
    CheckpointError, EntryKind, WeightMaps, merged_map, scoped_map, scoped_key, in_scope, scope_prefix,
    lemma_merged_insert, lemma_merged_empty, lemma_assoc_map_push, lemma_scoped_key_parts,
};
use crate::model_config::{insert_scalars, insert_entries, lists, lemma_insert_scalars_hold};
use crate::table::{KeyedTable, keys_sorted, assoc_map, lemma_sorted_key_index};

verus! {

/// The weights of one parameter and its first and second moments.
pub struct ParamState {
    pub data: Vec<u32>,
    pub m: Vec<u32>,
    pub v: Vec<u32>,
}

impl DeepView for ParamState {
    type V = (Seq<u32>, Seq<u32>, Seq<u32>);

    open spec fn deep_view(&self) -> Self::V {
        (self.data@, self.m@, self.v@)
    }
}

impl DeepClone for ParamState {
    fn deep_clone(&self) -> (r: Self) {
        let data = self.data.deep_clone();
        let m = self.m.deep_clone();
        let v = self.v.deep_clone();
        assert(data.deep_view() =~= data@ && self.data.deep_view() =~= self.data@);
        assert(m.deep_view() =~= m@ && self.m.deep_view() =~= self.m@);
        assert(v.deep_view() =~= v@ && self.v.deep_view() =~= self.v@);
        ParamState { data, m, v }
    }
}

/// The contents of an optimizer: its settings, its step count, and the state
/// of each parameter by name, in increasing byte order of the names.
pub ghost struct AdamWView {
    pub lr: u32,
    pub beta1: u32,
    pub beta2: u32,
    pub eps: u32,
    pub wd: u32,
    pub step_count: usize,
    pub grad_scale: u32,
    pub params: Seq<(Seq<u8>, (Seq<u32>, Seq<u32>, Seq<u32>))>,
}

/// A parameter's weights, first moment and second moment.
pub type ParamView = (Seq<u32>, Seq<u32>, Seq<u32>);

/// The scalars a checkpoint records for the optimizer, in order.
pub open spec fn optimizer_scalars(s: AdamWView) -> Seq<(Seq<char>, u64)> {
    seq![
        ("lr"@, s.lr as u64),
        ("beta1"@, s.beta1 as u64),
        ("beta2"@, s.beta2 as u64),
        ("eps"@, s.eps as u64),
        ("wd"@, s.wd as u64),
        ("step_count"@, s.step_count as u64),
        ("grad_scale"@, s.grad_scale as u64),
    ]
}

pub open spec fn data_scope() -> Seq<u8> {
    encode_utf8("data"@)
}

pub open spec fn m_scope() -> Seq<u8> {
    encode_utf8("m"@)
}

pub open spec fn v_scope() -> Seq<u8> {
    encode_utf8("v"@)
}

/// `x` with each parameter's first moment under `m.name`, second moment under
/// `v.name` and weights under `data.name`.
pub open spec fn with_param_vectors(x: Map<Seq<u8>, Seq<u32>>, ps: Map<Seq<u8>, ParamView>) -> Map<Seq<u8>, Seq<u32>> {
    merged_map(
        merged_map(
            merged_map(x, m_scope(), ps.map_values(|p: ParamView| p.1)),
            v_scope(),
            ps.map_values(|p: ParamView| p.2),
        ),
        data_scope(),
        ps.map_values(|p: ParamView| p.0),
    )
}

/// The weight map of an optimizer: its scalars, and the vectors of its parameters.
pub open spec fn optimizer_maps(s: AdamWView) -> WeightMaps {
    let base = insert_scalars(WeightMaps::empty(), optimizer_scalars(s));
    WeightMaps { vectors: with_param_vectors(base.vectors, s.param_map()), ..base }
}

proof fn lemma_ascii_bytes(s: Seq<char>)
    requires
        is_ascii_chars(s),
    ensures
        encode_utf8(s).len() == s.len(),
        forall|i: int| 0 <= i < s.len() ==> encode_utf8(s)[i] == s[i] as u8,
{
    is_ascii_chars_encode_utf8(s);
}

/// The three scopes begin with different bytes, so a key lies in at most one.
proof fn lemma_scopes()
    ensures
        m_scope() == seq![0x6Du8],
        v_scope() == seq![0x76u8],
        data_scope().len() == 4,
        data_scope()[0] == 0x64u8,
        forall|k: Seq<u8>| #![trigger scoped_key(m_scope(), k)]
            !in_scope(v_scope(), scoped_key(m_scope(), k)) && !in_scope(data_scope(), scoped_key(m_scope(), k)),
        forall|k: Seq<u8>| #![trigger scoped_key(v_scope(), k)]
            !in_scope(m_scope(), scoped_key(v_scope(), k)) && !in_scope(data_scope(), scoped_key(v_scope(), k)),
        forall|k: Seq<u8>| #![trigger scoped_key(data_scope(), k)]
            !in_scope(m_scope(), scoped_key(data_scope(), k)) && !in_scope(v_scope(), scoped_key(data_scope(), k)),
{
    reveal_strlit("data");
    reveal_strlit("m");
    reveal_strlit("v");
    lemma_ascii_bytes("data"@);
    lemma_ascii_bytes("m"@);
    lemma_ascii_bytes("v"@);
    assert(m_scope() =~= seq![0x6Du8]);
    assert(v_scope() =~= seq![0x76u8]);
    assert forall|k: Seq<u8>| #![trigger scoped_key(m_scope(), k)]
        !in_scope(v_scope(), scoped_key(m_scope(), k)) && !in_scope(data_scope(), scoped_key(m_scope(), k)) by {
        let q = scoped_key(m_scope(), k);
        assert(q[0] == 0x6Du8);
        if in_scope(v_scope(), q) {
            assert(q.subrange(0, 2)[0] == scope_prefix(v_scope())[0]);
        }
        if in_scope(data_scope(), q) {
            assert(q.subrange(0, 5)[0] == scope_prefix(data_scope())[0]);
        }
    }
    assert forall|k: Seq<u8>| #![trigger scoped_key(v_scope(), k)]
        !in_scope(m_scope(), scoped_key(v_scope(), k)) && !in_scope(data_scope(), scoped_key(v_scope(), k)) by {
        let q = scoped_key(v_scope(), k);
        assert(q[0] == 0x76u8);
        if in_scope(m_scope(), q) {
            assert(q.subrange(0, 2)[0] == scope_prefix(m_scope())[0]);
        }
        if in_scope(data_scope(), q) {
            assert(q.subrange(0, 5)[0] == scope_prefix(data_scope())[0]);
        }
    }
    assert forall|k: Seq<u8>| #![trigger scoped_key(data_scope(), k)]
        !in_scope(m_scope(), scoped_key(data_scope(), k)) && !in_scope(v_scope(), scoped_key(data_scope(), k)) by {
        let q = scoped_key(data_scope(), k);
        assert(q[0] == 0x64u8);
        if in_scope(m_scope(), q) {
            assert(q.subrange(0, 2)[0] == scope_prefix(m_scope())[0]);
        }
        if in_scope(v_scope(), q) {
            assert(q.subrange(0, 2)[0] == scope_prefix(v_scope())[0]);
        }
    }
}

/// Adding an entry outside the scope commutes with merging under it.
proof fn lemma_merged_outside<D>(x: Map<Seq<u8>, D>, p: Seq<u8>, o: Map<Seq<u8>, D>, q: Seq<u8>, w: D)
    requires
        !in_scope(p, q),
    ensures
        merged_map(x.insert(q, w), p, o) == merged_map(x, p, o).insert(q, w),
{
    assert(merged_map(x.insert(q, w), p, o) =~= merged_map(x, p, o).insert(q, w));
}

/// Recording one more parameter adds its three vectors.
proof fn lemma_param_vectors_insert(x: Map<Seq<u8>, Seq<u32>>, ps: Map<Seq<u8>, ParamView>, k: Seq<u8>, pv: ParamView)
    ensures
        with_param_vectors(x, ps.insert(k, pv)) == with_param_vectors(x, ps)
            .insert(scoped_key(m_scope(), k), pv.1)
            .insert(scoped_key(v_scope(), k), pv.2)
            .insert(scoped_key(data_scope(), k), pv.0),
{
    lemma_scopes();
    let fm = |p: ParamView| p.1;
    let fv = |p: ParamView| p.2;
    let fd = |p: ParamView| p.0;
    assert(ps.insert(k, pv).map_values(fm) =~= ps.map_values(fm).insert(k, pv.1));
    assert(ps.insert(k, pv).map_values(fv) =~= ps.map_values(fv).insert(k, pv.2));
    assert(ps.insert(k, pv).map_values(fd) =~= ps.map_values(fd).insert(k, pv.0));
    let mk = scoped_key(m_scope(), k);
    let vk = scoped_key(v_scope(), k);
    let dk = scoped_key(data_scope(), k);
    let a = merged_map(x, m_scope(), ps.map_values(fm));
    lemma_merged_insert(x, m_scope(), ps.map_values(fm), k, pv.1);
    let b = merged_map(a, v_scope(), ps.map_values(fv));
    lemma_merged_outside(a, v_scope(), ps.map_values(fv).insert(k, pv.2), mk, pv.1);
    lemma_merged_insert(a, v_scope(), ps.map_values(fv), k, pv.2);
    let c = merged_map(b, data_scope(), ps.map_values(fd));
    lemma_merged_outside(b.insert(vk, pv.2), data_scope(), ps.map_values(fd).insert(k, pv.0), mk, pv.1);
    lemma_merged_outside(b, data_scope(), ps.map_values(fd).insert(k, pv.0), vk, pv.2);
    lemma_merged_insert(b, data_scope(), ps.map_values(fd), k, pv.0);
    assert(mk[0] != vk[0] && mk[0] != dk[0] && vk[0] != dk[0]);
    assert(c.insert(dk, pv.0).insert(vk, pv.2).insert(mk, pv.1) =~= c.insert(mk, pv.1).insert(vk, pv.2).insert(dk, pv.0));
}

/// The keys of the optimizer's scalars, in the order they are read.
pub open spec fn optimizer_keys() -> Seq<Seq<char>> {
    seq!["lr"@, "beta1"@, "beta2"@, "eps"@, "wd"@, "step_count"@, "grad_scale"@]
}

/// `s` with setting `i` (in the order of `optimizer_keys`) taken from the stored scalar `v`.
pub open spec fn with_scalar(s: AdamWView, i: int, v: u64) -> AdamWView {
    if i == 0 {
        AdamWView { lr: v as u32, ..s }
    } else if i == 1 {
        AdamWView { beta1: v as u32, ..s }
    } else if i == 2 {
        AdamWView { beta2: v as u32, ..s }
    } else if i == 3 {
        AdamWView { eps: v as u32, ..s }
    } else if i == 4 {
        AdamWView { wd: v as u32, ..s }
    } else if i == 5 {
        AdamWView { step_count: v as usize, ..s }
    } else {
        AdamWView { grad_scale: v as u32, ..s }
    }
}

/// Reads the first `n` settings from `sc` in order, stopping at the first key
/// that is absent: the state so far, and that key.
pub open spec fn read_scalars(s: AdamWView, sc: Map<Seq<u8>, u64>, n: nat) -> (AdamWView, Option<Seq<char>>)
    decreases n,
{
    if n == 0 {
        (s, None)
    } else {
        let (t, missing) = read_scalars(s, sc, (n - 1) as nat);
        if missing is Some {
            (t, missing)
        } else {
            let key = encode_utf8(optimizer_keys()[n - 1]);
            if sc.contains_key(key) {
                (with_scalar(t, n - 1, sc[key]), None)
            } else {
                (t, Some(optimizer_keys()[n - 1]))
            }
        }
    }
}

pub open spec fn zeros(n: nat) -> Seq<u32> {
    Seq::new(n, |i: int| 0u32)
}

/// `p` with part `f` (0 weights, 1 first moment, 2 second moment) replaced by `x`.
pub open spec fn set_part(p: ParamView, f: int, x: Seq<u32>) -> ParamView {
    if f == 0 {
        (x, p.1, p.2)
    } else if f == 1 {
        (p.0, x, p.2)
    } else {
        (p.0, p.1, x)
    }
}

/// A parameter first seen through part `f`: weights come with zero moments of
/// their length; a moment comes with the other parts empty.
pub open spec fn fresh_part(f: int, x: Seq<u32>) -> ParamView {
    if f == 0 {
        (x, zeros(x.len()), zeros(x.len()))
    } else {
        set_part((Seq::empty(), Seq::empty(), Seq::empty()), f, x)
    }
}

/// `ps` with part `f` of parameter `k` set to `x`.
pub open spec fn with_part(ps: Map<Seq<u8>, ParamView>, k: Seq<u8>, f: int, x: Seq<u32>) -> Map<Seq<u8>, ParamView> {
    ps.insert(k, if ps.contains_key(k) { set_part(ps[k], f, x) } else { fresh_part(f, x) })
}

/// `ps` with part `f` of each parameter named in `src` set to its vector there.
pub open spec fn with_parts(ps: Map<Seq<u8>, ParamView>, src: Map<Seq<u8>, Seq<u32>>, f: int) -> Map<Seq<u8>, ParamView> {
    Map::new(
        |k: Seq<u8>| ps.contains_key(k) || src.contains_key(k),
        |k: Seq<u8>|
            if src.contains_key(k) {
                if ps.contains_key(k) {
                    set_part(ps[k], f, src[k])
                } else {
                    fresh_part(f, src[k])
                }
            } else {
                ps[k]
            },
    )
}

/// The parameters after reading the vectors of a checkpoint: first the weights
/// under `data.`, then the moments under `m.` and `v.`.
pub open spec fn restored_params(ps: Map<Seq<u8>, ParamView>, vectors: Map<Seq<u8>, Seq<u32>>) -> Map<Seq<u8>, ParamView> {
    with_parts(
        with_parts(with_parts(ps, scoped_map(vectors, data_scope()), 0), scoped_map(vectors, m_scope()), 1),
        scoped_map(vectors, v_scope()),
        2,
    )
}

/// The weights and both moments have one length.
pub open spec fn consistent(p: ParamView) -> bool {
    p.0.len() == p.1.len() && p.0.len() == p.2.len()
}

/// The first parameter, in order of names, that is not consistent.
pub open spec fn first_inconsistent(ps: Seq<(Seq<u8>, ParamView)>) -> Option<Seq<u8>>
    decreases ps.len(),
{
    if ps.len() == 0 {
        None
    } else if !consistent(ps[0].1) {
        Some(ps[0].0)
    } else {
        first_inconsistent(ps.drop_first())
    }
}

/// Setting parts one entry of a sorted list at a time sets them for the whole list.
proof fn lemma_with_parts_push(ps: Map<Seq<u8>, ParamView>, s: Seq<(Seq<u8>, Seq<u32>)>, f: int)
    requires
        keys_sorted(s),
        s.len() > 0,
    ensures
        with_parts(ps, assoc_map(s), f) == with_part(with_parts(ps, assoc_map(s.drop_last()), f), s.last().0, f, s.last().1),
{
    let t = s.drop_last();
    let k = s.last().0;
    lemma_assoc_map_push(s);
    assert(!assoc_map(t).contains_key(k)) by {
        if assoc_map(t).contains_key(k) {
            let j = choose|j: int| 0 <= j < t.len() && #[trigger] t[j].0 == k;
            assert(crate::keys::bytes_lt(s[j].0, s[s.len() - 1].0));
            lemma_bytes_lt_irreflexive(k);
        }
    }
    assert(with_parts(ps, assoc_map(s), f) =~= with_part(with_parts(ps, assoc_map(t), f), k, f, s.last().1));
}

impl AdamWView {
    /// The parameter states as a map from name bytes.
    pub open spec fn param_map(self) -> Map<Seq<u8>, (Seq<u32>, Seq<u32>, Seq<u32>)> {
        assoc_map(self.params)
    }
}

/// The bits of the `f32` value 0.9, the default first-moment decay.
pub const BETA1_BITS: u32 = 0x3F66_6666u32;
/// The bits of the `f32` value 0.999, the default second-moment decay.
pub const BETA2_BITS: u32 = 0x3F7F_BE77u32;
/// The bits of the `f32` value 1e-8, the default denominator offset.
pub const EPS_BITS: u32 = 0x322B_CC77u32;
/// The bits of the `f32` value 0.01, the default weight decay.
pub const DEFAULT_WD_BITS: u32 = 0x3C23_D70Au32;
/// The bits of the `f32` value 1.0.
pub const ONE_BITS: u32 = 0x3F80_0000u32;

/// The AdamW optimizer's state.
pub struct AdamW {
    lr: u32,
    beta1: u32,
    beta2: u32,
    eps: u32,
    wd: u32,
    step_count: usize,
    grad_scale: u32,
    params: KeyedTable<ParamState>,
}

impl View for AdamW {
    type V = AdamWView;

    closed spec fn view(&self) -> AdamWView {
        AdamWView {
            lr: self.lr,
            beta1: self.beta1,
            beta2: self.beta2,
            eps: self.eps,
            wd: self.wd,
            step_count: self.step_count,
            grad_scale: self.grad_scale,
            params: self.params@,
        }
    }
}

impl AdamW {
    #[verifier::type_invariant]
    spec fn sorted_inv(self) -> bool {
        keys_sorted(self.params@)
    }

    /// An optimizer with learning rate `lr` and weight decay 0.01.
    pub fn new(lr: u32) -> (o: Self)
        ensures
            o@ == (AdamWView {
                lr,
                beta1: BETA1_BITS,
                beta2: BETA2_BITS,
                eps: EPS_BITS,
                wd: DEFAULT_WD_BITS,
                step_count: 0,
                grad_scale: ONE_BITS,
                params: Seq::empty(),
            }),
    {
        Self::new_with_wd(lr, DEFAULT_WD_BITS)
    }

    /// An optimizer with the given learning rate and weight decay, no parameter
    /// state, no step taken and gradients taken as they are.
    pub fn new_with_wd(lr: u32, wd: u32) -> (o: Self)
        ensures
            o@ == (AdamWView {
                lr,
                beta1: BETA1_BITS,
                beta2: BETA2_BITS,
                eps: EPS_BITS,
                wd,
                step_count: 0,
                grad_scale: ONE_BITS,
                params: Seq::empty(),
            }),
    {
        AdamW {
            lr,
            beta1: BETA1_BITS,
            beta2: BETA2_BITS,
            eps: EPS_BITS,
            wd,
            step_count: 0,
            grad_scale: ONE_BITS,
            params: KeyedTable::new(),
        }
    }

    pub fn set_wd(&mut self, wd: u32)
        ensures
            final(self)@ == (AdamWView { wd, ..old(self)@ }),
    {
        proof {
            use_type_invariant(&*self);
        }
        self.wd = wd;
    }

    pub fn set_beta2(&mut self, beta2: u32)
        ensures
            final(self)@ == (AdamWView { beta2, ..old(self)@ }),
    {
        proof {
            use_type_invariant(&*self);
        }
        self.beta2 = beta2;
    }

    pub fn set_lr(&mut self, lr: u32)
        ensures
            final(self)@ == (AdamWView { lr, ..old(self)@ }),
    {
        proof {
            use_type_invariant(&*self);
        }
        self.lr = lr;
    }

    /// Sets the factor applied to gradients (the reciprocal of the batch size).
    pub fn set_grad_scale(&mut self, grad_scale: u32)
        ensures
            final(self)@ == (AdamWView { grad_scale, ..old(self)@ }),
    {
        proof {
            use_type_invariant(&*self);
        }
        self.grad_scale = grad_scale;
    }

    /// Takes gradients as they are again.
    pub fn reset_grad_scale(&mut self)
        ensures
            final(self)@ == (AdamWView { grad_scale: ONE_BITS, ..old(self)@ }),
    {
        proof {
            use_type_invariant(&*self);
        }
        self.grad_scale = ONE_BITS;
    }

    pub fn increment_step(&mut self)
        requires
            old(self)@.step_count < usize::MAX,
        ensures
            final(self)@ == (AdamWView { step_count: (old(self)@.step_count + 1) as usize, ..old(self)@ }),
    {
        proof {
            use_type_invariant(&*self);
        }
        self.step_count = self.step_count + 1;
    }

    pub fn step_count(&self) -> (n: usize)
        ensures
            n == self@.step_count,
    {
        self.step_count
    }

    pub fn lr(&self) -> (b: u32)
        ensures
            b == self@.lr,
    {
        self.lr
    }

    pub fn beta1(&self) -> (b: u32)
        ensures
            b == self@.beta1,
    {
        self.beta1
    }

    pub fn beta2(&self) -> (b: u32)
        ensures
            b == self@.beta2,
    {
        self.beta2
    }

    pub fn eps(&self) -> (b: u32)
        ensures
            b == self@.eps,
    {
        self.eps
    }

    pub fn weight_decay(&self) -> (b: u32)
        ensures
            b == self@.wd,
    {
        self.wd
    }

    pub fn grad_scale(&self) -> (b: u32)
        ensures
            b == self@.grad_scale,
    {
        self.grad_scale
    }

    /// The state of the parameter `name`, if the optimizer has one.
    pub fn param(&self, name: &str) -> (r: Option<&ParamState>)
        ensures
            r is Some == self@.param_map().contains_key(encode_utf8(name@)),
            r matches Some(p) ==> p.deep_view() == self@.param_map()[encode_utf8(name@)],
    {
        proof {
            use_type_invariant(self);
        }
        self.params.get(name.as_bytes())
    }

    /// Stores the state of the parameter `name`.
    pub fn set_param(&mut self, name: &str, p: ParamState)
        ensures
            final(self)@.param_map() == old(self)@.param_map().insert(encode_utf8(name@), p.deep_view()),
            final(self)@ == (AdamWView { params: final(self)@.params, ..old(self)@ }),
    {
        proof {
            use_type_invariant(&*self);
        }
        let mut t: KeyedTable<ParamState> = KeyedTable::new();
        std::mem::swap(&mut t, &mut self.params);
        t.insert(name.to_owned(), p);
        self.params = t;
    }
}

/// Stores the three vectors of each parameter of `t`.
fn insert_param_vectors(map: &mut WeightMap, t: &KeyedTable<ParamState>)
    requires
        keys_sorted(t@),
    ensures
        final(map)@.maps() == (WeightMaps {
            vectors: with_param_vectors(old(map)@.maps().vectors, assoc_map(t@)),
            ..old(map)@.maps()
        }),
        final(map)@.entry_count() <= old(map)@.entry_count() + 3 * t@.len(),
{
    let ghost m0 = map@.maps();
    let ghost c0 = map@.entry_count();
    let ghost s = t@;
    let n: usize = t.len();
    proof {
        assert(assoc_map(s.take(0)) =~= Map::<Seq<u8>, ParamView>::empty());
        let e = Map::<Seq<u8>, ParamView>::empty();
        assert(e.map_values(|p: ParamView| p.1) =~= Map::<Seq<u8>, Seq<u32>>::empty());
        assert(e.map_values(|p: ParamView| p.2) =~= Map::<Seq<u8>, Seq<u32>>::empty());
        assert(e.map_values(|p: ParamView| p.0) =~= Map::<Seq<u8>, Seq<u32>>::empty());
        lemma_merged_empty(m0.vectors, m_scope());
        lemma_merged_empty(m0.vectors, v_scope());
        lemma_merged_empty(m0.vectors, data_scope());
        assert(with_param_vectors(m0.vectors, e) == m0.vectors);
        assert(map@.maps() =~= (WeightMaps { vectors: with_param_vectors(m0.vectors, assoc_map(s.take(0))), ..m0 }));
    }
    let mut i: usize = 0;
    while i < n
        invariant
            n == s.len(),
            s == t@,
            keys_sorted(s),
            i <= n,
            map@.maps() == (WeightMaps { vectors: with_param_vectors(m0.vectors, assoc_map(s.take(i as int))), ..m0 }),
            map@.entry_count() <= c0 + 3 * i,
        decreases n - i,
    {
        let k = t.key_at(i);
        let p = t.value_at(i);
        let ghost pv = s[i as int].1;
        let ghost kb = s[i as int].0;
        let ghost before = map@.maps();
        let mk = scoped_name("m", k);
        let pm = p.m.deep_clone();
        assert(pm.deep_view() =~= pm@ && p.m.deep_view() =~= p.m@);
        map.insert_vector(mk.as_str(), pm);
        let vk = scoped_name("v", k);
        let pvv = p.v.deep_clone();
        assert(pvv.deep_view() =~= pvv@ && p.v.deep_view() =~= p.v@);
        map.insert_vector(vk.as_str(), pvv);
        let dk = scoped_name("data", k);
        let pd = p.data.deep_clone();
        assert(pd.deep_view() =~= pd@ && p.data.deep_view() =~= p.data@);
        map.insert_vector(dk.as_str(), pd);
        proof {
            let u = s.take(i + 1);
            assert(keys_sorted(u));
            assert(u.drop_last() =~= s.take(i as int));
            lemma_assoc_map_push(u);
            lemma_param_vectors_insert(m0.vectors, assoc_map(s.take(i as int)), kb, pv);
            assert(map@.maps() =~= (WeightMaps { vectors: with_param_vectors(m0.vectors, assoc_map(s.take(i + 1))), ..m0 }));
        }
        i = i + 1;
    }
    assert(s.take(n as int) =~= s);
}

/// `after` and `r` are what reading the optimizer state from a map with
/// contents `maps` into `before` gives: the settings in order, stopping at the
/// first that is missing; then the weights and moments of each parameter; then
/// the first parameter whose weights and moments differ in length, if any.
pub open spec fn restores(before: AdamWView, maps: WeightMaps, after: AdamWView, r: Result<(), CheckpointError>) -> bool {
    let (t, missing) = read_scalars(before, maps.scalars, 7);
    match missing {
        Some(key) => {
            &&& after == t
            &&& r matches Err(CheckpointError::Missing(kind, name)) && kind == EntryKind::Scalar && name@ == key
        },
        None => {
            &&& after == (AdamWView { params: after.params, ..t })
            &&& after.param_map() == restored_params(before.param_map(), maps.vectors)
            &&& match first_inconsistent(after.params) {
                None => r is Ok,
                Some(k) => r matches Err(CheckpointError::StateSizeMismatch(name)) && encode_utf8(name@) == k,
            }
        },
    }
}

/// Once a key is missing, reading further settings changes nothing.
proof fn lemma_read_scalars_stops(s: AdamWView, sc: Map<Seq<u8>, u64>, n: nat, extra: nat)
    requires
        read_scalars(s, sc, n).1 is Some,
    ensures
        read_scalars(s, sc, n + extra) == read_scalars(s, sc, n),
    decreases extra,
{
    if extra > 0 {
        lemma_read_scalars_stops(s, sc, n, (extra - 1) as nat);
    }
}

/// The key of setting `i`.
fn optimizer_key(i: usize) -> (k: &'static str)
    requires
        i < 7,
    ensures
        k@ == optimizer_keys()[i as int],
{
    match i {
        0 => "lr",
        1 => "beta1",
        2 => "beta2",
        3 => "eps",
        4 => "wd",
        5 => "step_count",
        _ => "grad_scale",
    }
}

/// `n` zero words.
fn zero_vec(n: usize) -> (r: Vec<u32>)
    ensures
        r@ == zeros(n as nat),
{
    let mut r: Vec<u32> = Vec::new();
    let mut i: usize = 0;
    while i < n
        invariant
            i <= n,
            r@ == zeros(i as nat),
        decreases n - i,
    {
        r.push(0u32);
        i = i + 1;
        assert(r@ =~= zeros(i as nat));
    }
    r
}

/// Sets part `f` of the parameter `name` to `x`.
fn put_part(t: &mut KeyedTable<ParamState>, name: &String, f: usize, x: Vec<u32>)
    requires
        keys_sorted(old(t)@),
        f < 3,
    ensures
        keys_sorted(final(t)@),
        assoc_map(final(t)@) == with_part(assoc_map(old(t)@), encode_utf8(name@), f as int, x@),
{
    let ghost xs = x@;
    let p = match t.get(name.as_str().as_bytes()) {
        Some(e) => {
            let d = e.data.deep_clone();
            let m = e.m.deep_clone();
            let v = e.v.deep_clone();
            assert(d.deep_view() =~= d@ && e.data.deep_view() =~= e.data@);
            assert(m.deep_view() =~= m@ && e.m.deep_view() =~= e.m@);
            assert(v.deep_view() =~= v@ && e.v.deep_view() =~= e.v@);
            if f == 0 {
                ParamState { data: x, m, v }
            } else if f == 1 {
                ParamState { data: d, m: x, v }
            } else {
                ParamState { data: d, m, v: x }
            }
        },
        None => {
            if f == 0 {
                let n: usize = x.len();
                ParamState { data: x, m: zero_vec(n), v: zero_vec(n) }
            } else if f == 1 {
                ParamState { data: Vec::new(), m: x, v: Vec::new() }
            } else {
                ParamState { data: Vec::new(), m: Vec::new(), v: x }
            }
        },
    };
    proof {
        let ps = assoc_map(t@);
        let k = encode_utf8(name@);
        if ps.contains_key(k) {
            assert(p.deep_view() =~= set_part(ps[k], f as int, xs));
        } else {
            assert(p.deep_view() =~= fresh_part(f as int, xs));
        }
    }
    t.insert(name.clone(), p);
}

/// Sets part `f` of each parameter named by a vector of `src` to that vector.
fn restore_part(t: &mut KeyedTable<ParamState>, src: &WeightMap, f: usize)
    requires
        keys_sorted(old(t)@),
        f < 3,
    ensures
        keys_sorted(final(t)@),
        assoc_map(final(t)@) == with_parts(assoc_map(old(t)@), src@.maps().vectors, f as int),
{
    let ghost ps0 = assoc_map(t@);
    let ghost sv = src@.vectors;
    let names = src.vector_keys();
    let n: usize = names.len();
    proof {
        assert(assoc_map(sv.take(0)) =~= Map::<Seq<u8>, Seq<u32>>::empty());
        assert(with_parts(ps0, assoc_map(sv.take(0)), f as int) =~= ps0);
    }
    let mut i: usize = 0;
    while i < n
        invariant
            n == names@.len(),
            n == sv.len(),
            sv == src@.vectors,
            keys_sorted(sv),
            forall|j: int| 0 <= j < n ==> encode_utf8(#[trigger] names@[j]@) == sv[j].0,
            f < 3,
            i <= n,
            keys_sorted(t@),
            assoc_map(t@) == with_parts(ps0, assoc_map(sv.take(i as int)), f as int),
        decreases n - i,
    {
        let name = &names[i];
        proof {
            lemma_assoc_map_push(sv);
        }
        let x = match src.get_vector(name.as_str()) {
            Ok(x) => x.deep_clone(),
            Err(_) => {
                proof {
                    let u = sv.take(i + 1);
                    assert(u[i as int] == sv[i as int]);
                    assert(src@.maps().vectors.contains_key(sv[i as int].0));
                }
                Vec::new()
            },
        };
        proof {
            assert(x.deep_view() =~= x@);
            let u = sv.take(i + 1);
            assert(keys_sorted(u));
            assert(u.drop_last() =~= sv.take(i as int));
            lemma_with_parts_push(ps0, u, f as int);
            lemma_sorted_key_index(sv, i as int);
            assert(x@ == sv[i as int].1);
        }
        put_part(t, name, f, x);
        i = i + 1;
    }
    assert(sv.take(n as int) =~= sv);
}

impl AdamW {
    /// Sets setting `i` from the stored scalar `v`.
    fn set_scalar(&mut self, i: usize, v: u64)
        requires
            i < 7,
        ensures
            final(self)@ == with_scalar(old(self)@, i as int, v),
    {
        proof {
            use_type_invariant(&*self);
        }
        match i {
            0 => self.lr = v as u32,
            1 => self.beta1 = v as u32,
            2 => self.beta2 = v as u32,
            3 => self.eps = v as u32,
            4 => self.wd = v as u32,
            5 => self.step_count = v as usize,
            _ => self.grad_scale = v as u32,
        }
    }

    /// Reads the parameters' weights and moments from the vectors of `map`.
    fn restore_params(&mut self, map: &WeightMap)
        ensures
            final(self)@ == (AdamWView { params: final(self)@.params, ..old(self)@ }),
            final(self)@.param_map() == restored_params(old(self)@.param_map(), map@.maps().vectors),
    {
        proof {
            use_type_invariant(&*self);
        }
        let mut t: KeyedTable<ParamState> = KeyedTable::new();
        std::mem::swap(&mut t, &mut self.params);
        let data = map.scoped("data");
        restore_part(&mut t, &data, 0);
        let m = map.scoped("m");
        restore_part(&mut t, &m, 1);
        let v = map.scoped("v");
        restore_part(&mut t, &v, 2);
        self.params = t;
    }

    /// Fails for the first parameter, in order of names, whose weights and
    /// moments differ in length.
    fn check_params(&self) -> (r: Result<(), CheckpointError>)
        ensures
            match first_inconsistent(self@.params) {
                None => r is Ok,
                Some(k) => r matches Err(CheckpointError::StateSizeMismatch(name)) && encode_utf8(name@) == k,
            },
    {
        let ghost ps = self@.params;
        let n: usize = self.params.len();
        let mut i: usize = 0;
        assert(ps.skip(0) =~= ps);
        while i < n
            invariant
                n == ps.len(),
                ps == self@.params,
                i <= n,
                first_inconsistent(ps) == first_inconsistent(ps.skip(i as int)),
            decreases n - i,
        {
            let p = self.params.value_at(i);
            proof {
                assert(ps.skip(i as int)[0] == ps[i as int]);
                assert(ps.skip(i as int).drop_first() =~= ps.skip(i + 1));
            }
            if p.data.len() != p.m.len() || p.data.len() != p.v.len() {
                return Err(CheckpointError::StateSizeMismatch(self.params.key_at(i).clone()));
            }
            i = i + 1;
        }
        assert(ps.skip(n as int) =~= Seq::<(Seq<u8>, ParamView)>::empty());
        Ok(())
    }

    /// The recorded scalars as (key, value) pairs, in order.
    fn scalar_entries(&self) -> (r: Vec<(&'static str, u64)>)
        ensures
            lists(r@, optimizer_scalars(self@)),
    {
        let mut r: Vec<(&'static str, u64)> = Vec::new();
        r.push(("lr", self.lr as u64));
        r.push(("beta1", self.beta1 as u64));
        r.push(("beta2", self.beta2 as u64));
        r.push(("eps", self.eps as u64));
        r.push(("wd", self.wd as u64));
        r.push(("step_count", self.step_count as u64));
        r.push(("grad_scale", self.grad_scale as u64));
        r
    }
}

impl Checkpointable for AdamW {
    /// The settings as scalars, and each parameter's weights and moments as
    /// vectors under `data.`, `m.` and `v.`.
    fn to_weight_map(&self) -> (map: WeightMap)
        ensures
            map@.maps() == optimizer_maps(self@),
            map@.entry_count() <= 7 + 3 * self@.params.len(),
    {
        proof {
            use_type_invariant(self);
        }
        let entries = self.scalar_entries();
        let mut map = WeightMap::new();
        insert_entries(&mut map, &entries, Ghost(optimizer_scalars(self@)));
        insert_param_vectors(&mut map, &self.params);
        map
    }

    /// Reads the settings in order, stopping at the first that is missing; then
    /// the weights and moments of each parameter; then checks that each
    /// parameter's weights and moments have one length.
    fn from_weight_map(&mut self, map: &WeightMap) -> (r: Result<(), CheckpointError>)
        ensures
            restores(old(self)@, map@.maps(), final(self)@, r),
            keys_sorted(final(self)@.params),
    {
        let ghost s0 = self@;
        let ghost sc = map@.maps().scalars;
        let mut i: usize = 0;
        while i < 7
            invariant
                i <= 7,
                sc == map@.maps().scalars,
                s0 == old(self)@,
                self@.params == s0.params,
                read_scalars(s0, sc, i as nat).1 is None,
                self@ == read_scalars(s0, sc, i as nat).0,
            decreases 7 - i,
        {
            let key = optimizer_key(i);
            match map.get_scalar(key) {
                Ok(v) => {
                    self.set_scalar(i, v);
                },
                Err(e) => {
                    proof {
                        let rest = 6 - i;
                        assert(read_scalars(s0, sc, (i + 1) as nat).1 == Some(optimizer_keys()[i as int]));
                        lemma_read_scalars_stops(s0, sc, (i + 1) as nat, rest as nat);
                        assert((i + 1) as nat + rest as nat == 7);
                        assert(read_scalars(s0, sc, 7) == read_scalars(s0, sc, (i + 1) as nat));
                        assert(read_scalars(s0, sc, 7).0 == self@);
                        assert(e matches CheckpointError::Missing(kind, name) && kind == EntryKind::Scalar && name@ == optimizer_keys()[i as int]);
                        assert(restores(s0, map@.maps(), self@, Err::<(), CheckpointError>(e)));
                    }
                    proof {
                        use_type_invariant(&*self);
                    }
                    return Err(e);
                },
            }
            i = i + 1;
        }
        let ghost t = self@;
        assert(t == read_scalars(s0, sc, 7).0);
        self.restore_params(map);
        let r = self.check_params();
        assert(self@ == (AdamWView { params: self@.params, ..t }));
        assert(restores(s0, map@.maps(), self@, r));
        proof {
            use_type_invariant(&*self);
        }
        r
    }
}

/// Storing scalars leaves the vectors alone.
proof fn lemma_insert_scalars_vectors(m: WeightMaps, entries: Seq<(Seq<char>, u64)>)
    ensures
        insert_scalars(m, entries).vectors == m.vectors,
    decreases entries.len(),
{
    if entries.len() > 0 {
        lemma_insert_scalars_vectors(m, entries.drop_last());
    }
}

/// Each scope of the parameter vectors gives back one part of every parameter.
proof fn lemma_param_vectors_scoped(ps: Map<Seq<u8>, ParamView>)
    ensures
        scoped_map(with_param_vectors(Map::empty(), ps), data_scope()) == ps.map_values(|p: ParamView| p.0),
        scoped_map(with_param_vectors(Map::empty(), ps), m_scope()) == ps.map_values(|p: ParamView| p.1),
        scoped_map(with_param_vectors(Map::empty(), ps), v_scope()) == ps.map_values(|p: ParamView| p.2),
{
    lemma_scopes();
    let e = Map::<Seq<u8>, Seq<u32>>::empty();
    let dm = ps.map_values(|p: ParamView| p.0);
    let mm = ps.map_values(|p: ParamView| p.1);
    let vm = ps.map_values(|p: ParamView| p.2);
    let a = merged_map(e, m_scope(), mm);
    let x = merged_map(a, v_scope(), vm);
    let w = merged_map(x, data_scope(), dm);
    assert(w == with_param_vectors(Map::empty(), ps));
    assert forall|k: Seq<u8>| #![trigger scoped_map(w, data_scope()).contains_key(k)]
        scoped_map(w, data_scope()).contains_key(k) == dm.contains_key(k)
        && (dm.contains_key(k) ==> scoped_map(w, data_scope())[k] == dm[k]) by {
        let q = scoped_key(data_scope(), k);
        lemma_scoped_key_parts(data_scope(), k);
        assert(!in_scope(m_scope(), q) && !in_scope(v_scope(), q));
        assert(!a.contains_key(q));
        assert(!x.contains_key(q));
    }
    assert(scoped_map(w, data_scope()) =~= dm);
    assert forall|k: Seq<u8>| #![trigger scoped_map(w, m_scope()).contains_key(k)]
        scoped_map(w, m_scope()).contains_key(k) == mm.contains_key(k)
        && (mm.contains_key(k) ==> scoped_map(w, m_scope())[k] == mm[k]) by {
        let q = scoped_key(m_scope(), k);
        lemma_scoped_key_parts(m_scope(), k);
        assert(!in_scope(v_scope(), q) && !in_scope(data_scope(), q));
        assert(w.contains_key(q) == x.contains_key(q));
        assert(x.contains_key(q) == a.contains_key(q));
        if mm.contains_key(k) {
            assert(a.contains_key(q));
            assert(w[q] == x[q] && x[q] == a[q]);
        }
    }
    assert(scoped_map(w, m_scope()) =~= mm);
    assert forall|k: Seq<u8>| #![trigger scoped_map(w, v_scope()).contains_key(k)]
        scoped_map(w, v_scope()).contains_key(k) == vm.contains_key(k)
        && (vm.contains_key(k) ==> scoped_map(w, v_scope())[k] == vm[k]) by {
        let q = scoped_key(v_scope(), k);
        lemma_scoped_key_parts(v_scope(), k);
        assert(!in_scope(m_scope(), q) && !in_scope(data_scope(), q));
        assert(!a.contains_key(q));
        assert(w.contains_key(q) == x.contains_key(q));
        if vm.contains_key(k) {
            assert(x.contains_key(q));
            assert(w[q] == x[q]);
        }
    }
    assert(scoped_map(w, v_scope()) =~= vm);
}

/// Reading every setting from the map of `s` takes all of them from `s`.
proof fn lemma_read_own_scalars(before: AdamWView, s: AdamWView)
    ensures
        read_scalars(before, optimizer_maps(s).scalars, 7) == (AdamWView { params: before.params, ..s }, None::<Seq<char>>),
{
    reveal_strlit("lr");
    reveal_strlit("beta1");
    reveal_strlit("beta2");
    reveal_strlit("eps");
    reveal_strlit("wd");
    reveal_strlit("step_count");
    reveal_strlit("grad_scale");
    let e = optimizer_scalars(s);
    assert forall|i: int, j: int| 0 <= i < j < e.len() implies #[trigger] e[i].0 != #[trigger] e[j].0 by {
        assert(e[i].0[0] != e[j].0[0] || e[i].0.len() != e[j].0.len() || e[i].0[4] != e[j].0[4]);
    }
    lemma_insert_scalars_hold(WeightMaps::empty(), e);
    let sc = optimizer_maps(s).scalars;
    let ks = optimizer_keys();
    assert forall|i: int| 0 <= i < 7 implies sc.contains_key(encode_utf8(#[trigger] ks[i])) && sc[encode_utf8(ks[i])] == e[i].1 by {
        assert(ks[i] == e[i].0);
    }
    assert(sc.contains_key(encode_utf8(ks[0])) && sc.contains_key(encode_utf8(ks[1])));
    assert(sc.contains_key(encode_utf8(ks[2])) && sc.contains_key(encode_utf8(ks[3])));
    assert(sc.contains_key(encode_utf8(ks[4])) && sc.contains_key(encode_utf8(ks[5])));
    assert(sc.contains_key(encode_utf8(ks[6])));
    assert(read_scalars(before, sc, 0) == (before, None::<Seq<char>>));
    assert(read_scalars(before, sc, 1) == (AdamWView { lr: s.lr, ..before }, None::<Seq<char>>));
    assert(read_scalars(before, sc, 2) == (AdamWView { lr: s.lr, beta1: s.beta1, ..before }, None::<Seq<char>>));
    assert(read_scalars(before, sc, 3) == (AdamWView { lr: s.lr, beta1: s.beta1, beta2: s.beta2, ..before }, None::<Seq<char>>));
    assert(read_scalars(before, sc, 4)
        == (AdamWView { lr: s.lr, beta1: s.beta1, beta2: s.beta2, eps: s.eps, ..before }, None::<Seq<char>>));
    assert(read_scalars(before, sc, 5)
        == (AdamWView { lr: s.lr, beta1: s.beta1, beta2: s.beta2, eps: s.eps, wd: s.wd, ..before }, None::<Seq<char>>));
    assert(read_scalars(before, sc, 6) == (AdamWView {
        lr: s.lr, beta1: s.beta1, beta2: s.beta2, eps: s.eps, wd: s.wd, step_count: s.step_count, ..before
    }, None::<Seq<char>>));
    assert(read_scalars(before, sc, 7) == (AdamWView { params: before.params, ..s }, None::<Seq<char>>));
}

/// Restoring the parts of every parameter of `ps` over `before` gives `ps`
/// where it names a parameter and `before` elsewhere.
proof fn lemma_restore_all_parts(before: Map<Seq<u8>, ParamView>, ps: Map<Seq<u8>, ParamView>)
    ensures
        with_parts(
            with_parts(with_parts(before, ps.map_values(|p: ParamView| p.0), 0), ps.map_values(|p: ParamView| p.1), 1),
            ps.map_values(|p: ParamView| p.2),
            2,
        ) == before.union_prefer_right(ps),
{
    let r = with_parts(
        with_parts(with_parts(before, ps.map_values(|p: ParamView| p.0), 0), ps.map_values(|p: ParamView| p.1), 1),
        ps.map_values(|p: ParamView| p.2),
        2,
    );
    assert forall|k: Seq<u8>| ps.contains_key(k) implies #[trigger] r[k] == ps[k] by {
        let p = ps[k];
        assert(r[k] == (p.0, p.1, p.2));
    }
    assert(r =~= before.union_prefer_right(ps));
}

/// A list every entry of which is consistent has no inconsistent entry.
proof fn lemma_all_consistent(ps: Seq<(Seq<u8>, ParamView)>)
    requires
        forall|i: int| 0 <= i < ps.len() ==> consistent(#[trigger] ps[i].1),
    ensures
        first_inconsistent(ps) is None,
    decreases ps.len(),
{
    if ps.len() > 0 {
        assert(consistent(ps[0].1));
        assert forall|i: int| 0 <= i < ps.drop_first().len() implies consistent(#[trigger] ps.drop_first()[i].1) by {
            assert(ps.drop_first()[i] == ps[i + 1]);
        }
        lemma_all_consistent(ps.drop_first());
    }
}

/// Restoring an optimizer from the weight map of another succeeds when every
/// parameter of both has weights and moments of one length, and then the
/// settings are those of the saved optimizer and its parameters replace those
/// of the same names.
pub proof fn lemma_optimizer_roundtrip(
    before: AdamWView,
    s: AdamWView,
    after: AdamWView,
    r: Result<(), CheckpointError>,
)
    requires
        restores(before, optimizer_maps(s), after, r),
        keys_sorted(after.params),
        forall|k: Seq<u8>| #[trigger] s.param_map().contains_key(k) ==> consistent(s.param_map()[k]),
        forall|k: Seq<u8>| #[trigger] before.param_map().contains_key(k) ==> consistent(before.param_map()[k]),
    ensures
        r is Ok,
        after == (AdamWView { params: after.params, ..s }),
        after.param_map() == before.param_map().union_prefer_right(s.param_map()),
{
    lemma_read_own_scalars(before, s);
    let base = insert_scalars(WeightMaps::empty(), optimizer_scalars(s));
    lemma_insert_scalars_vectors(WeightMaps::empty(), optimizer_scalars(s));
    assert(base.vectors == Map::<Seq<u8>, Seq<u32>>::empty());
    lemma_param_vectors_scoped(s.param_map());
    lemma_restore_all_parts(before.param_map(), s.param_map());
    let u = after.param_map();
    assert forall|i: int| 0 <= i < after.params.len() implies consistent(#[trigger] after.params[i].1) by {
        lemma_sorted_key_index(after.params, i);
        let k = after.params[i].0;
        assert(u.contains_key(k));
    }
    lemma_all_consistent(after.params);
}

/// `sc` holds each setting of `s` under its own name: `lr`, `beta1`, `beta2`,
/// `eps`, `wd`, `step_count` and `grad_scale`.
pub open spec fn records_settings(sc: Map<Seq<u8>, u64>, s: AdamWView) -> bool {
    &&& sc.contains_key(encode_utf8("lr"@)) && sc[encode_utf8("lr"@)] == s.lr as u64
    &&& sc.contains_key(encode_utf8("beta1"@)) && sc[encode_utf8("beta1"@)] == s.beta1 as u64
    &&& sc.contains_key(encode_utf8("beta2"@)) && sc[encode_utf8("beta2"@)] == s.beta2 as u64
    &&& sc.contains_key(encode_utf8("eps"@)) && sc[encode_utf8("eps"@)] == s.eps as u64
    &&& sc.contains_key(encode_utf8("wd"@)) && sc[encode_utf8("wd"@)] == s.wd as u64
    &&& sc.contains_key(encode_utf8("step_count"@)) && sc[encode_utf8("step_count"@)] == s.step_count as u64
    &&& sc.contains_key(encode_utf8("grad_scale"@)) && sc[encode_utf8("grad_scale"@)] == s.grad_scale as u64
}

/// `sc` holds a scalar under each of the names of the settings.
pub open spec fn has_setting_names(sc: Map<Seq<u8>, u64>) -> bool {
    &&& sc.contains_key(encode_utf8("lr"@))
    &&& sc.contains_key(encode_utf8("beta1"@))
    &&& sc.contains_key(encode_utf8("beta2"@))
    &&& sc.contains_key(encode_utf8("eps"@))
    &&& sc.contains_key(encode_utf8("wd"@))
    &&& sc.contains_key(encode_utf8("step_count"@))
    &&& sc.contains_key(encode_utf8("grad_scale"@))
}

/// The weight map of an optimizer holds each of its settings under its own name.
pub proof fn lemma_optimizer_map_names(s: AdamWView)
    ensures
        records_settings(optimizer_maps(s).scalars, s),
{
    reveal_strlit("lr");
    reveal_strlit("beta1");
    reveal_strlit("beta2");
    reveal_strlit("eps");
    reveal_strlit("wd");
    reveal_strlit("step_count");
    reveal_strlit("grad_scale");
    let e = optimizer_scalars(s);
    assert forall|i: int, j: int| 0 <= i < j < e.len() implies #[trigger] e[i].0 != #[trigger] e[j].0 by {
        assert(e[i].0[0] != e[j].0[0] || e[i].0.len() != e[j].0.len() || e[i].0[4] != e[j].0[4]);
    }
    lemma_insert_scalars_hold(WeightMaps::empty(), e);
    assert(e[0].0 == "lr"@ && e[1].0 == "beta1"@ && e[2].0 == "beta2"@ && e[3].0 == "eps"@);
    assert(e[4].0 == "wd"@ && e[5].0 == "step_count"@ && e[6].0 == "grad_scale"@);
}

/// Restoring from a map that holds every setting takes each setting from the
/// scalar under its own name, and keeps nothing of the settings before.
pub proof fn lemma_restore_setting_names(before: AdamWView, maps: WeightMaps, after: AdamWView, r: Result<(), CheckpointError>)
    requires
        has_setting_names(maps.scalars),
        restores(before, maps, after, r),
    ensures
        after.lr == maps.scalars[encode_utf8("lr"@)] as u32,
        after.beta1 == maps.scalars[encode_utf8("beta1"@)] as u32,
        after.beta2 == maps.scalars[encode_utf8("beta2"@)] as u32,
        after.eps == maps.scalars[encode_utf8("eps"@)] as u32,
        after.wd == maps.scalars[encode_utf8("wd"@)] as u32,
        after.step_count == maps.scalars[encode_utf8("step_count"@)] as usize,
        after.grad_scale == maps.scalars[encode_utf8("grad_scale"@)] as u32,
{
    let sc = maps.scalars;
    let ks = optimizer_keys();
    assert(ks[0] == "lr"@ && ks[1] == "beta1"@ && ks[2] == "beta2"@ && ks[3] == "eps"@);
    assert(ks[4] == "wd"@ && ks[5] == "step_count"@ && ks[6] == "grad_scale"@);
    let lr = sc[encode_utf8("lr"@)] as u32;
    let b1 = sc[encode_utf8("beta1"@)] as u32;
    let b2 = sc[encode_utf8("beta2"@)] as u32;
    let eps = sc[encode_utf8("eps"@)] as u32;
    let wd = sc[encode_utf8("wd"@)] as u32;
    let sct = sc[encode_utf8("step_count"@)] as usize;
    let gs = sc[encode_utf8("grad_scale"@)] as u32;
    assert(read_scalars(before, sc, 0) == (before, None::<Seq<char>>));
    assert(read_scalars(before, sc, 1) == (AdamWView { lr, ..before }, None::<Seq<char>>));
    assert(read_scalars(before, sc, 2) == (AdamWView { lr, beta1: b1, ..before }, None::<Seq<char>>));
    assert(read_scalars(before, sc, 3) == (AdamWView { lr, beta1: b1, beta2: b2, ..before }, None::<Seq<char>>));
    assert(read_scalars(before, sc, 4) == (AdamWView { lr, beta1: b1, beta2: b2, eps, ..before }, None::<Seq<char>>));
    assert(read_scalars(before, sc, 5)
        == (AdamWView { lr, beta1: b1, beta2: b2, eps, wd, ..before }, None::<Seq<char>>));
    assert(read_scalars(before, sc, 6)
        == (AdamWView { lr, beta1: b1, beta2: b2, eps, wd, step_count: sct, ..before }, None::<Seq<char>>));
    assert(read_scalars(before, sc, 7) == (AdamWView {
        lr, beta1: b1, beta2: b2, eps, wd, step_count: sct, grad_scale: gs, ..before
    }, None::<Seq<char>>));
}

/// The weight map of an optimizer holds the weights of each parameter `k`
/// under `data.k`, its first moment under `m.k` and its second moment under `v.k`.
pub proof fn lemma_param_vector_names(s: AdamWView, k: Seq<u8>, p: ParamState)
    requires
        s.param_map().contains_key(k),
        s.param_map()[k] == p.deep_view(),
    ensures
        ({
            let v = optimizer_maps(s).vectors;
            &&& v.contains_key(scoped_key(encode_utf8("data"@), k))
            &&& v[scoped_key(encode_utf8("data"@), k)] == p.data@
            &&& v.contains_key(scoped_key(encode_utf8("m"@), k))
            &&& v[scoped_key(encode_utf8("m"@), k)] == p.m@
            &&& v.contains_key(scoped_key(encode_utf8("v"@), k))
            &&& v[scoped_key(encode_utf8("v"@), k)] == p.v@
        }),
{
    lemma_scopes();
    lemma_scoped_key_parts(data_scope(), k);
    lemma_scoped_key_parts(m_scope(), k);
    lemma_scoped_key_parts(v_scope(), k);
    let ps = s.param_map();
    let base = insert_scalars(WeightMaps::empty(), optimizer_scalars(s)).vectors;
    let mm = merged_map(base, m_scope(), ps.map_values(|q: ParamView| q.1));
    let vm = merged_map(mm, v_scope(), ps.map_values(|q: ParamView| q.2));
    let dm = merged_map(vm, data_scope(), ps.map_values(|q: ParamView| q.0));
    assert(optimizer_maps(s).vectors == dm);
    let dk = scoped_key(data_scope(), k);
    let mk = scoped_key(m_scope(), k);
    let vk = scoped_key(v_scope(), k);
    assert(dm.contains_key(dk) && dm[dk] == ps[k].0);
    assert(mm.contains_key(mk) && mm[mk] == ps[k].1);
    assert(vm.contains_key(mk) && vm[mk] == mm[mk]);
    assert(dm.contains_key(mk) && dm[mk] == vm[mk]);
    assert(vm.contains_key(vk) && vm[vk] == ps[k].2);
    assert(dm.contains_key(vk) && dm[vk] == vm[vk]);
}

/// Restoring from a map that holds `data.k`, `m.k` and `v.k` gives parameter
/// `k` the weights under `data.k`, the first moment under `m.k` and the second
/// moment under `v.k`.
pub proof fn lemma_restored_param_names(ps: Map<Seq<u8>, ParamView>, vectors: Map<Seq<u8>, Seq<u32>>, k: Seq<u8>, p: ParamState)
    requires
        vectors.contains_key(scoped_key(encode_utf8("data"@), k)),
        vectors.contains_key(scoped_key(encode_utf8("m"@), k)),
        vectors.contains_key(scoped_key(encode_utf8("v"@), k)),
        restored_params(ps, vectors)[k] == p.deep_view(),
    ensures
        restored_params(ps, vectors).contains_key(k),
        p.data@ == vectors[scoped_key(encode_utf8("data"@), k)],
        p.m@ == vectors[scoped_key(encode_utf8("m"@), k)],
        p.v@ == vectors[scoped_key(encode_utf8("v"@), k)],
{
    let d = scoped_map(vectors, data_scope());
    let m = scoped_map(vectors, m_scope());
    let v = scoped_map(vectors, v_scope());
    assert(d.contains_key(k) && m.contains_key(k) && v.contains_key(k));
    let a = with_parts(ps, d, 0);
    let b = with_parts(a, m, 1);
    let c = with_parts(b, v, 2);
    assert(a.contains_key(k) && a[k].0 == d[k]);
    assert(b.contains_key(k) && b[k].0 == d[k] && b[k].1 == m[k]);
    assert(c.contains_key(k) && c[k].0 == d[k] && c[k].1 == m[k] && c[k].2 == v[k]);
    assert(restored_params(ps, vectors) == c);
}

} // verus!
