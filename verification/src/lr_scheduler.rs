//! Learning-rate schedules: which phase a training step falls in, and how far
//! through that phase it is. The learning rate itself is a real-valued function
//! of the phase and the two `f32` bounds, held here as their bit patterns.
use vstd::prelude::*;

verus! {

/// The shape of a schedule.
///
/// `WarmupCosine` warms up linearly, then follows a cosine from `lr_max` down to
/// `lr_min` at `total_steps`. `WarmupStableDecay` warms up, holds `lr_max` for
/// `stable_steps`, then decays as `1 - sqrt(progress)` to `lr_min` at `total_steps`.
#[derive(Clone, Copy, Debug, PartialEq, Eq, Structural)]
pub enum LrScheduleKind {
    WarmupCosine,
    WarmupStableDecay { stable_steps: usize },
}

/// Where a step stands in a schedule; a phase that moves from one rate to
/// another carries the steps `done` out of its `span`.
#[derive(Clone, Copy, Debug, PartialEq, Eq, Structural)]
pub enum LrPhase {
    /// The rate is `lr_max * done / span`.
    Warmup { done: usize, span: usize },
    /// The rate is `lr_min + (lr_max - lr_min) * (1 + cos(pi * p)) / 2`, with `p = min(done / span, 1)`.
    Cosine { done: usize, span: usize },
    /// The rate is `lr_max`.
    Stable,
    /// The rate is `lr_min + (lr_max - lr_min) * (1 - sqrt(p))`, with `p = min(done / span, 1)`.
    Decay { done: usize, span: usize },
    /// The rate is `lr_min`: the decay phase is empty.
    Floor,
}

/// A schedule can be built with these settings.
pub open spec fn valid_schedule(warmup_steps: nat, total_steps: nat, kind: LrScheduleKind) -> bool {
    match kind {
        LrScheduleKind::WarmupCosine => true,
        LrScheduleKind::WarmupStableDecay { stable_steps } => warmup_steps + stable_steps <= total_steps,
    }
}

/// The phase can be computed for `step`: past the warm-up, a cosine schedule
/// measures its progress over `total_steps - warmup_steps`, which must exist.
pub open spec fn phase_defined(warmup_steps: nat, total_steps: nat, kind: LrScheduleKind, step: nat) -> bool {
    step >= warmup_steps && kind is WarmupCosine ==> total_steps >= warmup_steps
}

/// The phase of `step`.
pub open spec fn schedule_phase(warmup_steps: usize, total_steps: usize, kind: LrScheduleKind, step: usize) -> LrPhase {
    if step < warmup_steps {
        LrPhase::Warmup { done: step, span: warmup_steps }
    } else {
        match kind {
            LrScheduleKind::WarmupCosine => LrPhase::Cosine {
                done: (step - warmup_steps) as usize,
                span: (total_steps - warmup_steps) as usize,
            },
            LrScheduleKind::WarmupStableDecay { stable_steps } => {
                let stable_end = warmup_steps + stable_steps;
                if step < stable_end {
                    LrPhase::Stable
                } else if total_steps == stable_end {
                    LrPhase::Floor
                } else {
                    LrPhase::Decay {
                        done: (step - stable_end) as usize,
                        span: (total_steps - stable_end) as usize,
                    }
                }
            },
        }
    }
}

/// The order of the phases in time.
pub open spec fn phase_rank(p: LrPhase) -> int {
    match p {
        LrPhase::Warmup { .. } => 0,
        LrPhase::Cosine { .. } => 1,
        LrPhase::Stable => 1,
        LrPhase::Decay { .. } => 2,
        LrPhase::Floor => 2,
    }
}

/// A learning-rate schedule over `total_steps` steps.
pub struct LrScheduler {
    lr_max_bits: u32,
    lr_min_bits: u32,
    warmup_steps: usize,
    total_steps: usize,
    kind: LrScheduleKind,
}

impl LrScheduler {
    #[verifier::type_invariant]
    spec fn well_formed(self) -> bool {
        valid_schedule(self.warmup_steps as nat, self.total_steps as nat, self.kind)
    }

    pub closed spec fn spec_lr_max_bits(self) -> u32 {
        self.lr_max_bits
    }

    pub closed spec fn spec_lr_min_bits(self) -> u32 {
        self.lr_min_bits
    }

    pub closed spec fn spec_warmup_steps(self) -> usize {
        self.warmup_steps
    }

    pub closed spec fn spec_total_steps(self) -> usize {
        self.total_steps
    }

    pub closed spec fn spec_kind(self) -> LrScheduleKind {
        self.kind
    }

    /// Warm-up followed by a cosine decay.
    pub fn new(lr_max_bits: u32, lr_min_bits: u32, warmup_steps: usize, total_steps: usize) -> (s: Self)
        ensures
            s.spec_lr_max_bits() == lr_max_bits,
            s.spec_lr_min_bits() == lr_min_bits,
            s.spec_warmup_steps() == warmup_steps,
            s.spec_total_steps() == total_steps,
            s.spec_kind() == LrScheduleKind::WarmupCosine,
    {
        Self::with_kind(lr_max_bits, lr_min_bits, warmup_steps, total_steps, LrScheduleKind::WarmupCosine)
    }

    /// A schedule of the given kind; warm-up and stable phase must fit in `total_steps`.
    pub fn with_kind(
        lr_max_bits: u32,
        lr_min_bits: u32,
        warmup_steps: usize,
        total_steps: usize,
        kind: LrScheduleKind,
    ) -> (s: Self)
        requires
            valid_schedule(warmup_steps as nat, total_steps as nat, kind),
        ensures
            s.spec_lr_max_bits() == lr_max_bits,
            s.spec_lr_min_bits() == lr_min_bits,
            s.spec_warmup_steps() == warmup_steps,
            s.spec_total_steps() == total_steps,
            s.spec_kind() == kind,
    {
        LrScheduler { lr_max_bits, lr_min_bits, warmup_steps, total_steps, kind }
    }

    pub fn lr_max_bits(&self) -> (r: u32)
        ensures
            r == self.spec_lr_max_bits(),
    {
        self.lr_max_bits
    }

    pub fn lr_min_bits(&self) -> (r: u32)
        ensures
            r == self.spec_lr_min_bits(),
    {
        self.lr_min_bits
    }

    pub fn warmup_steps(&self) -> (r: usize)
        ensures
            r == self.spec_warmup_steps(),
    {
        self.warmup_steps
    }

    pub fn total_steps(&self) -> (r: usize)
        ensures
            r == self.spec_total_steps(),
    {
        self.total_steps
    }

    pub fn kind(&self) -> (r: LrScheduleKind)
        ensures
            r == self.spec_kind(),
    {
        self.kind
    }

    /// The phase of `step`, from which the rate is computed.
    pub fn phase(&self, step: usize) -> (p: LrPhase)
        requires
            phase_defined(self.spec_warmup_steps() as nat, self.spec_total_steps() as nat, self.spec_kind(), step as nat),
        ensures
            p == schedule_phase(self.spec_warmup_steps(), self.spec_total_steps(), self.spec_kind(), step),
    {
        proof {
            use_type_invariant(self);
        }
        if step < self.warmup_steps {
            return LrPhase::Warmup { done: step, span: self.warmup_steps };
        }
        match self.kind {
            LrScheduleKind::WarmupCosine => LrPhase::Cosine {
                done: step - self.warmup_steps,
                span: self.total_steps - self.warmup_steps,
            },
            LrScheduleKind::WarmupStableDecay { stable_steps } => {
                let stable_end: usize = self.warmup_steps + stable_steps;
                if step < stable_end {
                    LrPhase::Stable
                } else if self.total_steps == stable_end {
                    LrPhase::Floor
                } else {
                    LrPhase::Decay { done: step - stable_end, span: self.total_steps - stable_end }
                }
            },
        }
    }
}

/// A step is in the warm-up exactly when it comes before `warmup_steps`, and
/// then the warm-up has gone `step` steps of `warmup_steps`.
pub proof fn lemma_warmup_phase(warmup_steps: usize, total_steps: usize, kind: LrScheduleKind, step: usize)
    ensures
        (schedule_phase(warmup_steps, total_steps, kind, step) is Warmup) == (step < warmup_steps),
        step < warmup_steps ==> schedule_phase(warmup_steps, total_steps, kind, step)
            == (LrPhase::Warmup { done: step, span: warmup_steps }),
{
}

/// A warm-up, stable, decay schedule holds `lr_max` from the end of the warm-up
/// until `stable_steps` later.
pub proof fn lemma_stable_phase(warmup_steps: usize, total_steps: usize, stable_steps: usize, step: usize)
    requires
        valid_schedule(warmup_steps as nat, total_steps as nat, LrScheduleKind::WarmupStableDecay { stable_steps }),
        warmup_steps <= step < warmup_steps + stable_steps,
    ensures
        schedule_phase(warmup_steps, total_steps, LrScheduleKind::WarmupStableDecay { stable_steps }, step) == LrPhase::Stable,
{
}

/// At `total_steps` a schedule has reached its end: the cosine or the decay is
/// complete, or the decay phase is empty.
pub proof fn lemma_schedule_end(warmup_steps: usize, total_steps: usize, kind: LrScheduleKind)
    requires
        valid_schedule(warmup_steps as nat, total_steps as nat, kind),
        warmup_steps <= total_steps,
    ensures
        match schedule_phase(warmup_steps, total_steps, kind, total_steps) {
            LrPhase::Cosine { done, span } => done == span,
            LrPhase::Decay { done, span } => done == span,
            LrPhase::Floor => true,
            LrPhase::Stable => false,
            LrPhase::Warmup { .. } => false,
        },
{
}

/// A schedule only moves forward: a later step is in the same or a later phase,
/// and within one phase it has gone at least as far through the same span.
pub proof fn lemma_phase_monotone(warmup_steps: usize, total_steps: usize, kind: LrScheduleKind, s1: usize, s2: usize)
    requires
        valid_schedule(warmup_steps as nat, total_steps as nat, kind),
        phase_defined(warmup_steps as nat, total_steps as nat, kind, s1 as nat),
        phase_defined(warmup_steps as nat, total_steps as nat, kind, s2 as nat),
        s1 <= s2,
    ensures
        phase_rank(schedule_phase(warmup_steps, total_steps, kind, s1)) <= phase_rank(schedule_phase(warmup_steps, total_steps, kind, s2)),
        match (schedule_phase(warmup_steps, total_steps, kind, s1), schedule_phase(warmup_steps, total_steps, kind, s2)) {
            (LrPhase::Warmup { done: d1, span: n1 }, LrPhase::Warmup { done: d2, span: n2 }) => d1 <= d2 && n1 == n2,
            (LrPhase::Cosine { done: d1, span: n1 }, LrPhase::Cosine { done: d2, span: n2 }) => d1 <= d2 && n1 == n2,
            (LrPhase::Decay { done: d1, span: n1 }, LrPhase::Decay { done: d2, span: n2 }) => d1 <= d2 && n1 == n2,
            (LrPhase::Stable, LrPhase::Cosine { .. }) => false,
            (LrPhase::Cosine { .. }, LrPhase::Stable) => false,
            (LrPhase::Floor, LrPhase::Decay { .. }) => false,
            (LrPhase::Decay { .. }, LrPhase::Floor) => false,
            _ => true,
        },
{
}

/// Past its warm-up and stable phase, a warm-up, stable, decay schedule decays:
/// the decay has gone `step - (warmup_steps + stable_steps)` steps of
/// `total_steps - (warmup_steps + stable_steps)`, or, when no step is left for
/// it, the rate is `lr_min`. With no stable phase the warm-up is followed
/// directly by the decay.
pub proof fn lemma_decay_phase(warmup_steps: usize, total_steps: usize, stable_steps: usize, step: usize)
    requires
        valid_schedule(warmup_steps as nat, total_steps as nat, LrScheduleKind::WarmupStableDecay { stable_steps }),
        step >= warmup_steps + stable_steps,
    ensures
        total_steps > warmup_steps + stable_steps ==> schedule_phase(
            warmup_steps,
            total_steps,
            LrScheduleKind::WarmupStableDecay { stable_steps },
            step,
        ) == (LrPhase::Decay {
            done: (step - (warmup_steps + stable_steps)) as usize,
            span: (total_steps - (warmup_steps + stable_steps)) as usize,
        }),
        total_steps == warmup_steps + stable_steps ==> schedule_phase(
            warmup_steps,
            total_steps,
            LrScheduleKind::WarmupStableDecay { stable_steps },
            step,
        ) == LrPhase::Floor,
{
}

/// A warm-up, stable, decay schedule never follows a cosine, and a cosine
/// schedule never holds a stable rate or decays as `1 - sqrt(progress)`.
pub proof fn lemma_phase_kinds(warmup_steps: usize, total_steps: usize, kind: LrScheduleKind, step: usize)
    ensures
        kind is WarmupStableDecay ==> !(schedule_phase(warmup_steps, total_steps, kind, step) is Cosine),
        kind is WarmupCosine ==> {
            let p = schedule_phase(warmup_steps, total_steps, kind, step);
            &&& !(p is Stable)
            &&& !(p is Decay)
            &&& !(p is Floor)
        },
{
}

/// Past its warm-up, a cosine schedule follows the cosine, which has gone
/// `step - warmup_steps` steps of `total_steps - warmup_steps`.
pub proof fn lemma_cosine_phase(warmup_steps: usize, total_steps: usize, step: usize)
    requires
        phase_defined(warmup_steps as nat, total_steps as nat, LrScheduleKind::WarmupCosine, step as nat),
        step >= warmup_steps,
    ensures
        schedule_phase(warmup_steps, total_steps, LrScheduleKind::WarmupCosine, step) == (LrPhase::Cosine {
            done: (step - warmup_steps) as usize,
            span: (total_steps - warmup_steps) as usize,
        }),
{
}

} // verus!
