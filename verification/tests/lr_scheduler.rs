use transformer_gpu::lr_scheduler::{LrPhase, LrScheduleKind, LrScheduler};

fn bits(x: f32) -> u32 {
    x.to_bits()
}

#[test]
fn warmup_phase_counts_steps_from_zero() {
    let s = LrScheduler::new(bits(1.0), bits(0.1), 100, 1000);
    assert_eq!(s.phase(0), LrPhase::Warmup { done: 0, span: 100 });
    assert_eq!(s.phase(50), LrPhase::Warmup { done: 50, span: 100 });
    assert_eq!(s.phase(100), LrPhase::Cosine { done: 0, span: 900 });
}

#[test]
fn cosine_phase_is_complete_at_total_steps() {
    let s = LrScheduler::new(bits(1.0), bits(0.1), 100, 1000);
    assert_eq!(s.phase(1000), LrPhase::Cosine { done: 900, span: 900 });
    assert_eq!(s.phase(1100), LrPhase::Cosine { done: 1000, span: 900 });
    let s = LrScheduler::new(bits(1.0), bits(0.1), 100, 1100);
    assert_eq!(s.phase(600), LrPhase::Cosine { done: 500, span: 1000 });
}

#[test]
fn stable_decay_phases() {
    let s = LrScheduler::with_kind(
        bits(1.0),
        bits(0.1),
        100,
        1000,
        LrScheduleKind::WarmupStableDecay { stable_steps: 500 },
    );
    assert_eq!(s.phase(50), LrPhase::Warmup { done: 50, span: 100 });
    assert_eq!(s.phase(100), LrPhase::Stable);
    assert_eq!(s.phase(300), LrPhase::Stable);
    assert_eq!(s.phase(599), LrPhase::Stable);
    assert_eq!(s.phase(600), LrPhase::Decay { done: 0, span: 400 });
    assert_eq!(s.phase(800), LrPhase::Decay { done: 200, span: 400 });
    assert_eq!(s.phase(1000), LrPhase::Decay { done: 400, span: 400 });
}

#[test]
fn decay_progress_never_goes_back() {
    let s = LrScheduler::with_kind(
        bits(1.0),
        bits(0.1),
        100,
        1000,
        LrScheduleKind::WarmupStableDecay { stable_steps: 500 },
    );
    let mut prev = 0;
    for step in (600..=1000).step_by(20) {
        match s.phase(step) {
            LrPhase::Decay { done, span } => {
                assert_eq!(span, 400);
                assert!(done >= prev);
                prev = done;
            }
            other => panic!("unexpected phase {other:?}"),
        }
    }
}

#[test]
fn empty_decay_phase_stays_at_the_floor() {
    let s = LrScheduler::with_kind(
        bits(1.0),
        bits(0.1),
        10,
        30,
        LrScheduleKind::WarmupStableDecay { stable_steps: 20 },
    );
    assert_eq!(s.phase(29), LrPhase::Stable);
    assert_eq!(s.phase(30), LrPhase::Floor);
    assert_eq!(s.phase(40), LrPhase::Floor);
}

#[test]
fn scheduler_keeps_its_settings() {
    let s = LrScheduler::with_kind(
        bits(5e-4),
        bits(5e-5),
        500,
        10_000,
        LrScheduleKind::WarmupStableDecay { stable_steps: 8000 },
    );
    assert_eq!(f32::from_bits(s.lr_max_bits()), 5e-4);
    assert_eq!(f32::from_bits(s.lr_min_bits()), 5e-5);
    assert_eq!(s.warmup_steps(), 500);
    assert_eq!(s.total_steps(), 10_000);
    assert_eq!(s.kind(), LrScheduleKind::WarmupStableDecay { stable_steps: 8000 });
}
