//! The bookkeeping of a training run: which steps log and evaluate, which random
//! draws a resumed run replays, and the metadata that a checkpoint carries next
//! to the model's weights.
use vstd::prelude::*;
use vstd::utf8::encode_utf8;
use crate::checkpoint::{Checkpointable, WeightMap};
use crate::dataset::Split;
use crate::optimizer::{AdamW, AdamWView};
use crate::format::{CheckpointError, EntryView, WeightMaps, merged_map, scoped_map, scoped_key, in_scope};
use crate::model_config::{
    ModelConfig, config_scalars, insert_scalars, check_scalars, reports, ConfigCheck,
    lemma_insert_scalars_hold, lemma_check_all_present, records_config, lemma_config_check_names,
};
use crate::format::lemma_scoped_merged;
use vstd::utf8::{is_ascii_chars, is_ascii_chars_encode_utf8};

verus! {

/// What a training step does besides its update.
#[derive(Clone, Copy, Debug, PartialEq, Eq, Structural)]
pub struct StepEvents {
    /// Print the losses of the step.
    pub log: bool,
    /// Measure the validation loss, and keep the best model so far.
    pub eval: bool,
}

/// The events of `step`: every `log_interval`-th step logs and every
/// `eval_interval`-th step evaluates.
pub fn step_events(step: usize, log_interval: usize, eval_interval: usize) -> (e: StepEvents)
    requires
        log_interval > 0,
        eval_interval > 0,
    ensures
        e.log == (step % log_interval == 0),
        e.eval == (step % eval_interval == 0),
{
    StepEvents { log: step % log_interval == 0, eval: step % eval_interval == 0 }
}

/// The draws a resumed run makes to advance its training generator before its
/// first step: for each step `1 .. start_step`, one offset over the training
/// split, and one more over the validation split at each evaluation step. This
/// is a fixed replay schedule, not the draws a run made: a step draws
/// `batch_size` training windows, and evaluation uses a generator of its own,
/// so the replay does not bring the generator back to the state it had.
pub open spec fn replayed_draws(start_step: nat, eval_interval: nat) -> Seq<Split>
    decreases start_step,
{
    if start_step <= 1 {
        Seq::empty()
    } else {
        let step: nat = (start_step - 1) as nat;
        let before = replayed_draws(step, eval_interval).push(Split::Train);
        if step % eval_interval == 0 {
            before.push(Split::Val)
        } else {
            before
        }
    }
}

/// The replay schedule of a run resumed at `start_step` (see `replayed_draws`).
pub fn resume_draws(start_step: usize, eval_interval: usize) -> (r: Vec<Split>)
    requires
        start_step > 1 ==> eval_interval > 0,
    ensures
        r@ == replayed_draws(start_step as nat, eval_interval as nat),
{
    let mut r: Vec<Split> = Vec::new();
    let mut step: usize = 1;
    while step < start_step
        invariant
            1 <= step,
            step == 1 || step <= start_step,
            start_step > 1 ==> eval_interval > 0,
            r@ == replayed_draws(step as nat, eval_interval as nat),
        decreases start_step - step,
    {
        r.push(Split::Train);
        if step % eval_interval == 0 {
            r.push(Split::Val);
        }
        step = step + 1;
    }
    proof {
        if start_step <= 1 {
            assert(replayed_draws(1, eval_interval as nat) == Seq::<Split>::empty());
            assert(replayed_draws(start_step as nat, eval_interval as nat) == Seq::<Split>::empty());
        }
    }
    r
}

/// The model's input and targets for a window of tokens: every token but the
/// last is input, and each input token's target is the token after it.
pub fn input_and_targets(window: &[u32]) -> (r: (Vec<u32>, Vec<usize>))
    requires
        window@.len() >= 1,
    ensures
        r.0@ == window@.drop_last(),
        r.1@.len() == window@.len() - 1,
        forall|i: int| 0 <= i < r.1@.len() ==> #[trigger] r.1@[i] == window@[i + 1] as usize,
{
    let seq: usize = window.len() - 1;
    let mut input: Vec<u32> = Vec::new();
    let mut target: Vec<usize> = Vec::new();
    let mut i: usize = 0;
    while i < seq
        invariant
            seq == window@.len() - 1,
            i <= seq,
            input@ == window@.take(i as int),
            target@.len() == i,
            forall|k: int| 0 <= k < i ==> #[trigger] target@[k] == window@[k + 1] as usize,
        decreases seq - i,
    {
        input.push(window[i]);
        target.push(window[i + 1] as usize);
        i = i + 1;
        assert(input@ =~= window@.take(i as int));
    }
    assert(window@.take(seq as int) =~= window@.drop_last());
    (input, target)
}

/// `batch_size` micro-batches came back, every one with a finite loss.
pub open spec fn all_finite(finite: Seq<bool>, batch_size: nat) -> bool {
    &&& batch_size > 0
    &&& finite.len() == batch_size
    &&& forall|i: int| 0 <= i < finite.len() ==> finite[i]
}

/// What a training step does once its micro-batches are done.
#[derive(Clone, Copy, Debug, PartialEq, Eq, Structural)]
pub struct StepPlan {
    /// Apply one optimizer update with the gathered gradients.
    pub update: bool,
    /// The number of micro-batches the gradients are averaged over; 0 without an update.
    pub grad_scale_count: usize,
}

/// The plan of a step whose micro-batches came back with the given finiteness.
pub open spec fn plan_of(finite: Seq<bool>, batch_size: usize) -> StepPlan {
    if all_finite(finite, batch_size as nat) {
        StepPlan { update: true, grad_scale_count: batch_size }
    } else {
        StepPlan { update: false, grad_scale_count: 0 }
    }
}

/// Whether a step draws another micro-batch: it has drawn fewer than
/// `batch_size`, and every loss so far was finite (a non-finite loss ends the step).
pub fn wants_micro_batch(finite: &[bool], batch_size: usize) -> (b: bool)
    ensures
        b == (finite@.len() < batch_size && forall|i: int| 0 <= i < finite@.len() ==> finite@[i]),
{
    if finite.len() >= batch_size {
        return false;
    }
    let mut i: usize = 0;
    while i < finite.len()
        invariant
            i <= finite@.len(),
            forall|k: int| 0 <= k < i ==> finite@[k],
        decreases finite@.len() - i,
    {
        if !finite[i] {
            return false;
        }
        i = i + 1;
    }
    true
}

/// The end of a step: when all `batch_size` micro-batches had finite losses,
/// one update with gradients averaged over them; otherwise the gathered
/// gradients are dropped and no update is made.
pub fn step_plan(finite: &[bool], batch_size: usize) -> (p: StepPlan)
    requires
        finite@.len() <= batch_size,
    ensures
        p == plan_of(finite@, batch_size),
        p.update == (batch_size > 0 && finite@.len() == batch_size
            && forall|i: int| 0 <= i < finite@.len() ==> finite@[i]),
        p.update ==> p.grad_scale_count == batch_size,
        !p.update ==> p.grad_scale_count == 0,
{
    let mut ok: bool = batch_size > 0 && finite.len() == batch_size;
    let mut i: usize = 0;
    while i < finite.len()
        invariant
            i <= finite@.len(),
            ok == (batch_size > 0 && finite@.len() == batch_size && forall|k: int| 0 <= k < i ==> finite@[k]),
        decreases finite@.len() - i,
    {
        if !finite[i] {
            ok = false;
        }
        i = i + 1;
    }
    if ok {
        StepPlan { update: true, grad_scale_count: batch_size }
    } else {
        StepPlan { update: false, grad_scale_count: 0 }
    }
}

/// After an evaluation the model is saved exactly when its validation loss improved.
pub fn after_eval(improved: bool) -> (save: bool)
    ensures
        save == improved,
{
    improved
}

/// Prepares the optimizer for a step's update: when the plan makes an update,
/// the learning rate is set to `lr` and the step count goes up by one;
/// otherwise the optimizer is left as it is.
pub fn begin_update(opt: &mut AdamW, plan: StepPlan, lr: u32)
    requires
        plan.update ==> old(opt)@.step_count < usize::MAX,
    ensures
        plan.update ==> final(opt)@ == (AdamWView {
            lr,
            step_count: (old(opt)@.step_count + 1) as usize,
            ..old(opt)@
        }),
        !plan.update ==> final(opt)@ == old(opt)@,
{
    if plan.update {
        opt.set_lr(lr);
        opt.increment_step();
    }
}

/// The number of steps, in `history`, whose plan made an update.
pub open spec fn planned_updates(history: Seq<Seq<bool>>, batch_size: usize) -> nat
    decreases history.len(),
{
    if history.len() == 0 {
        0
    } else {
        planned_updates(history.drop_last(), batch_size)
            + (if plan_of(history.last(), batch_size).update { 1nat } else { 0nat })
    }
}

/// The number of steps from `start_step` through `end_step`.
pub open spec fn run_length(start_step: usize, end_step: usize) -> nat {
    if start_step <= end_step {
        (end_step - start_step + 1) as nat
    } else {
        0
    }
}

/// Over a run, the number of optimizer updates equals the number of steps
/// whose micro-batches all came back with finite losses.
pub proof fn lemma_run_updates(history: Seq<Seq<bool>>, batch_size: usize)
    ensures
        planned_updates(history, batch_size)
            == history.filter(|f: Seq<bool>| all_finite(f, batch_size as nat)).len(),
    decreases history.len(),
{
    reveal_with_fuel(Seq::filter, 1);
    if history.len() > 0 {
        lemma_run_updates(history.drop_last(), batch_size);
    } else {
        assert(history.filter(|f: Seq<bool>| all_finite(f, batch_size as nat)) =~= Seq::<Seq<bool>>::empty());
    }
}

/// The steps of a training run, from `start_step` through `end_step`, each with
/// `batch_size` micro-batches; it records the finiteness of every step's losses.
pub struct TrainLoop {
    start_step: usize,
    end_step: usize,
    batch_size: usize,
    next: usize,
    finished: bool,
    history: Ghost<Seq<Seq<bool>>>,
}

/// The state of a run: its bounds, the next step, and the finiteness of the
/// losses of each step run so far.
pub ghost struct TrainLoopView {
    pub start_step: usize,
    pub end_step: usize,
    pub batch_size: usize,
    pub next: usize,
    pub finished: bool,
    pub history: Seq<Seq<bool>>,
}

impl View for TrainLoop {
    type V = TrainLoopView;

    closed spec fn view(&self) -> TrainLoopView {
        TrainLoopView {
            start_step: self.start_step,
            end_step: self.end_step,
            batch_size: self.batch_size,
            next: self.next,
            finished: self.finished,
            history: self.history@,
        }
    }
}

impl TrainLoop {
    #[verifier::type_invariant]
    spec fn progress_inv(self) -> bool {
        &&& !self.finished ==> self.start_step <= self.next <= self.end_step
            && self.history@.len() == self.next - self.start_step
        &&& self.finished ==> self.history@.len() == run_length(self.start_step, self.end_step)
    }

    /// A run from `start_step` through `end_step`; none when `start_step > end_step`.
    pub fn new(start_step: usize, end_step: usize, batch_size: usize) -> (r: Self)
        ensures
            r@.start_step == start_step,
            r@.end_step == end_step,
            r@.batch_size == batch_size,
            r@.next == start_step,
            r@.finished == (start_step > end_step),
            r@.history == Seq::<Seq<bool>>::empty(),
    {
        TrainLoop {
            start_step,
            end_step,
            batch_size,
            next: start_step,
            finished: start_step > end_step,
            history: Ghost(Seq::empty()),
        }
    }

    /// The step to run next, or `None` once `end_step` has been run.
    pub fn next_step(&self) -> (s: Option<usize>)
        ensures
            s is None == self@.finished,
            s matches Some(n) ==> n == self@.next && n == self@.start_step + self@.history.len()
                && n <= self@.end_step,
            s is None ==> self@.history.len() == run_length(self@.start_step, self@.end_step),
    {
        proof {
            use_type_invariant(self);
        }
        if self.finished {
            None
        } else {
            Some(self.next)
        }
    }

    /// Ends the current step, whose micro-batches came back with the given
    /// finiteness, and moves to the next one.
    pub fn finish_step(&mut self, finite: &[bool]) -> (p: StepPlan)
        requires
            !old(self)@.finished,
            finite@.len() <= old(self)@.batch_size,
        ensures
            p == plan_of(finite@, old(self)@.batch_size),
            final(self)@.history == old(self)@.history.push(finite@),
            final(self)@.finished == (old(self)@.next == old(self)@.end_step),
            !final(self)@.finished ==> final(self)@.next == old(self)@.next + 1,
            final(self)@.start_step == old(self)@.start_step,
            final(self)@.end_step == old(self)@.end_step,
            final(self)@.batch_size == old(self)@.batch_size,
    {
        proof {
            use_type_invariant(&*self);
        }
        let p = step_plan(finite, self.batch_size);
        let ghost h = self.history@.push(finite@);
        let last: bool = self.next == self.end_step;
        let next: usize = if last { self.next } else { self.next + 1 };
        *self = TrainLoop {
            start_step: self.start_step,
            end_step: self.end_step,
            batch_size: self.batch_size,
            next,
            finished: last,
            history: Ghost(h),
        };
        p
    }
}

pub open spec fn meta_step_key() -> Seq<u8> {
    encode_utf8("meta.step"@)
}

pub open spec fn meta_best_val_key() -> Seq<u8> {
    encode_utf8("meta.best_val"@)
}

pub open spec fn meta_model_scope() -> Seq<u8> {
    encode_utf8("meta.model"@)
}

pub open spec fn optimizer_scope() -> Seq<u8> {
    encode_utf8("optimizer"@)
}

/// The bit pattern of `f32::INFINITY`.
pub const INFINITY_BITS: u32 = 0x7F80_0000u32;

/// A checkpoint: the model's entries, the step and the bits of the best
/// validation loss, the configuration under `meta.model`, and the optimizer's
/// entries under `optimizer`.
pub open spec fn checkpoint_maps(
    model: WeightMaps,
    step: usize,
    best_val_bits: u32,
    cfg: ModelConfig,
    optimizer: WeightMaps,
) -> WeightMaps {
    model.apply(EntryView::Scalar(meta_step_key(), step as u64))
        .apply(EntryView::Scalar(meta_best_val_key(), best_val_bits as u64))
        .merged(meta_model_scope(), insert_scalars(WeightMaps::empty(), config_scalars(cfg)))
        .merged(optimizer_scope(), optimizer)
}

/// The scalar under `k`, or `default` when there is none.
pub open spec fn scalar_or(m: Map<Seq<u8>, u64>, k: Seq<u8>, default: u64) -> u64 {
    if m.contains_key(k) {
        m[k]
    } else {
        default
    }
}

/// Turns the model's weight map into a checkpoint of step `step`.
pub fn add_checkpoint_meta(
    map: &mut WeightMap,
    step: usize,
    best_val_bits: u32,
    cfg: &ModelConfig,
    optimizer: WeightMap,
)
    ensures
        final(map)@.maps() == checkpoint_maps(old(map)@.maps(), step, best_val_bits, *cfg, optimizer@.maps()),
        final(map)@.entry_count() <= old(map)@.entry_count() + 9 + optimizer@.entry_count(),
{
    map.insert_scalar("meta.step", step as u64);
    map.insert_scalar("meta.best_val", best_val_bits as u64);
    map.merge("meta.model", cfg.to_weight_map());
    map.merge("optimizer", optimizer);
}

/// The step at which a run resumes from `map`: the recorded step, or 1.
pub fn resume_step(map: &WeightMap) -> (s: usize)
    ensures
        s == scalar_or(map@.maps().scalars, meta_step_key(), 1) as usize,
{
    let v: u64 = match map.get_scalar("meta.step") {
        Ok(v) => v,
        Err(_) => 1,
    };
    v as usize
}

/// The bits of the best validation loss recorded in `map`, or those of infinity.
pub fn resume_best_val_bits(map: &WeightMap) -> (b: u32)
    ensures
        b == scalar_or(map@.maps().scalars, meta_best_val_key(), INFINITY_BITS as u64) as u32,
{
    let v: u64 = match map.get_scalar("meta.best_val") {
        Ok(v) => v,
        Err(_) => INFINITY_BITS as u64,
    };
    v as u32
}

/// Checks that the configuration recorded under `meta.model` is `cfg`.
pub fn restore_config(cfg: &mut ModelConfig, map: &WeightMap) -> (r: Result<(), CheckpointError>)
    ensures
        *final(cfg) == *old(cfg),
        reports(check_scalars(config_scalars(*old(cfg)), map@.maps().scoped(meta_model_scope()).scalars), r),
{
    let scoped = map.scoped("meta.model");
    cfg.from_weight_map(&scoped)
}

proof fn lemma_ascii_bytes(s: Seq<char>)
    requires
        is_ascii_chars(s),
    ensures
        encode_utf8(s).len() == s.len(),
        forall|i: int| 0 <= i < s.len() ==> encode_utf8(s)[i] == s[i] as u8,
{
    is_ascii_chars_encode_utf8(s);
}

/// The metadata keys lie outside both scopes, and nothing under `meta.model`
/// lies under `optimizer`.
proof fn lemma_meta_keys()
    ensures
        meta_step_key() != meta_best_val_key(),
        !in_scope(meta_model_scope(), meta_step_key()),
        !in_scope(meta_model_scope(), meta_best_val_key()),
        !in_scope(optimizer_scope(), meta_step_key()),
        !in_scope(optimizer_scope(), meta_best_val_key()),
        forall|k: Seq<u8>| !in_scope(optimizer_scope(), #[trigger] scoped_key(meta_model_scope(), k)),
{
    reveal_strlit("meta.step");
    reveal_strlit("meta.best_val");
    reveal_strlit("meta.model");
    reveal_strlit("optimizer");
    lemma_ascii_bytes("meta.step"@);
    lemma_ascii_bytes("meta.best_val"@);
    lemma_ascii_bytes("meta.model"@);
    lemma_ascii_bytes("optimizer"@);
    let st = meta_step_key();
    let bv = meta_best_val_key();
    let pm = meta_model_scope();
    let po = optimizer_scope();
    assert(st.len() == 9 && bv.len() == 13 && pm.len() == 10 && po.len() == 9);
    assert(st[5] != bv[5]);
    assert(bv.subrange(0, 11)[5] != pm.push(0x2Eu8)[5]);
    assert(bv.subrange(0, 10)[0] != po.push(0x2Eu8)[0]);
    assert forall|k: Seq<u8>| !in_scope(po, #[trigger] scoped_key(pm, k)) by {
        let sk = scoped_key(pm, k);
        assert(sk[0] == pm[0]);
        if in_scope(po, sk) {
            assert(sk.subrange(0, 10)[0] == po.push(0x2Eu8)[0]);
        }
    }
}

/// Resuming from a checkpoint gives back what it recorded: the step, the best
/// validation loss, and a configuration that checks against the one saved.
pub proof fn lemma_checkpoint_resume(
    model: WeightMaps,
    step: usize,
    best_val_bits: u32,
    cfg: ModelConfig,
    optimizer: WeightMaps,
)
    ensures
        ({
            let m = checkpoint_maps(model, step, best_val_bits, cfg, optimizer);
            &&& scalar_or(m.scalars, meta_step_key(), 1) as usize == step
            &&& scalar_or(m.scalars, meta_best_val_key(), INFINITY_BITS as u64) as u32 == best_val_bits
            &&& check_scalars(config_scalars(cfg), m.scoped(meta_model_scope()).scalars) == ConfigCheck::Matches
        }),
{
    lemma_meta_keys();
    let pm = meta_model_scope();
    let po = optimizer_scope();
    let c = insert_scalars(WeightMaps::empty(), config_scalars(cfg));
    let s2 = model.scalars.insert(meta_step_key(), step as u64).insert(meta_best_val_key(), best_val_bits as u64);
    let y = merged_map(s2, pm, c.scalars);
    let m = checkpoint_maps(model, step, best_val_bits, cfg, optimizer);
    assert(m.scalars == merged_map(y, po, optimizer.scalars));
    assert(m.scalars.contains_key(meta_step_key()) && m.scalars[meta_step_key()] == step as u64);
    assert(m.scalars.contains_key(meta_best_val_key()) && m.scalars[meta_best_val_key()] == best_val_bits as u64);
    assert(scoped_map(m.scalars, pm) =~= scoped_map(y, pm));
    lemma_scoped_merged(s2, pm, c.scalars);
    let e = config_scalars(cfg);
    reveal_strlit("vocab_size");
    reveal_strlit("d_model");
    reveal_strlit("n_heads");
    reveal_strlit("n_kv_heads");
    reveal_strlit("d_ff");
    reveal_strlit("n_layers");
    reveal_strlit("max_seq_len");
    assert forall|i: int, j: int| 0 <= i < j < e.len() implies #[trigger] e[i].0 != #[trigger] e[j].0 by {
        assert(e[i].0[0] != e[j].0[0] || e[i].0.len() != e[j].0.len() || e[i].0[2] != e[j].0[2]);
    }
    lemma_insert_scalars_hold(WeightMaps::empty(), e);
    let sc = m.scoped(pm).scalars;
    assert(sc == scoped_map(s2, pm).union_prefer_right(c.scalars));
    assert forall|i: int| 0 <= i < e.len() implies sc.contains_key(encode_utf8(#[trigger] e[i].0))
        && sc[encode_utf8(e[i].0)] == e[i].1 by {
        assert(c.scalars.contains_key(encode_utf8(e[i].0)));
    }
    lemma_check_all_present(e, sc);
}

/// A checkpoint holds its step under `meta.step`, the bits of the best
/// validation loss under `meta.best_val`, and each shape setting of the
/// configuration under its own name below `meta.model`.
pub proof fn lemma_checkpoint_meta_names(
    model: WeightMaps,
    step: usize,
    best_val_bits: u32,
    cfg: ModelConfig,
    optimizer: WeightMaps,
)
    ensures
        ({
            let m = checkpoint_maps(model, step, best_val_bits, cfg, optimizer);
            &&& m.scalars.contains_key(encode_utf8("meta.step"@))
            &&& m.scalars[encode_utf8("meta.step"@)] == step as u64
            &&& m.scalars.contains_key(encode_utf8("meta.best_val"@))
            &&& m.scalars[encode_utf8("meta.best_val"@)] == best_val_bits as u64
            &&& records_config(m.scoped(encode_utf8("meta.model"@)).scalars, cfg)
        }),
{
    lemma_meta_keys();
    lemma_checkpoint_resume(model, step, best_val_bits, cfg, optimizer);
    let pm = meta_model_scope();
    let po = optimizer_scope();
    let c = insert_scalars(WeightMaps::empty(), config_scalars(cfg));
    let s2 = model.scalars.insert(meta_step_key(), step as u64).insert(meta_best_val_key(), best_val_bits as u64);
    let y = merged_map(s2, pm, c.scalars);
    let m = checkpoint_maps(model, step, best_val_bits, cfg, optimizer);
    assert(m.scalars == merged_map(y, po, optimizer.scalars));
    assert(m.scalars.contains_key(meta_step_key()) && m.scalars[meta_step_key()] == step as u64);
    assert(m.scalars.contains_key(meta_best_val_key()) && m.scalars[meta_best_val_key()] == best_val_bits as u64);
    lemma_config_check_names(cfg, m.scoped(pm).scalars);
}

} // verus!
