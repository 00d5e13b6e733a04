use transformer_gpu::checkpoint::{Checkpointable, WeightMap};
use transformer_gpu::dataset::Split;
use transformer_gpu::format::CheckpointError;
use transformer_gpu::model_config::ModelConfig;
use transformer_gpu::optimizer::AdamW;
use transformer_gpu::training::{
    after_eval, begin_update, step_plan, wants_micro_batch, StepPlan, TrainLoop,
    add_checkpoint_meta, input_and_targets, restore_config, resume_best_val_bits, resume_draws, resume_step,
    step_events, StepEvents, INFINITY_BITS,
};

#[test]
fn steps_log_and_evaluate_on_their_intervals() {
    assert_eq!(step_events(100, 20, 500), StepEvents { log: true, eval: false });
    assert_eq!(step_events(500, 20, 500), StepEvents { log: true, eval: true });
    assert_eq!(step_events(7, 20, 500), StepEvents { log: false, eval: false });
    assert_eq!(step_events(0, 3, 3), StepEvents { log: true, eval: true });
}

#[test]
fn resumed_run_replays_one_draw_per_step_and_one_per_evaluation() {
    assert!(resume_draws(0, 2).is_empty());
    assert!(resume_draws(1, 2).is_empty());
    assert_eq!(
        resume_draws(5, 2),
        vec![Split::Train, Split::Train, Split::Val, Split::Train, Split::Train, Split::Val]
    );
    assert_eq!(resume_draws(4, 10), vec![Split::Train; 3]);
}

#[test]
fn checkpoint_meta_resumes_step_best_and_config() {
    let cfg = ModelConfig::default();
    let mut model = WeightMap::new();
    model.insert_vector("embedding", vec![1, 2, 3]);
    let mut opt = WeightMap::new();
    opt.insert_scalar("step_count", 12);
    add_checkpoint_meta(&mut model, 1500, 2.5f32.to_bits(), &cfg, opt);

    let back = WeightMap::read_from(&model.write_to()).unwrap();
    assert_eq!(resume_step(&back), 1500);
    assert_eq!(f32::from_bits(resume_best_val_bits(&back)), 2.5);
    let mut same = ModelConfig::default();
    assert_eq!(restore_config(&mut same, &back), Ok(()));
    assert_eq!(back.get_scalar("meta.model.d_model"), Ok(64));
    assert_eq!(back.get_scalar("optimizer.step_count"), Ok(12));
    assert_eq!(back.get_vector("embedding").unwrap(), &vec![1, 2, 3]);
    assert_eq!(back.scoped("optimizer").get_scalar("step_count"), Ok(12));

    let mut other = ModelConfig::tiny_shakespeare();
    assert_eq!(
        restore_config(&mut other, &back),
        Err(CheckpointError::ConfigMismatch("vocab_size".to_string(), 4000, 256))
    );
}

#[test]
fn fresh_map_resumes_from_the_start() {
    let m = WeightMap::new();
    assert_eq!(resume_step(&m), 1);
    assert_eq!(resume_best_val_bits(&m), INFINITY_BITS);
    assert_eq!(f32::from_bits(resume_best_val_bits(&m)), f32::INFINITY);
}

#[test]
fn config_map_merges_under_meta_model() {
    let cfg = ModelConfig::gpt2_small();
    let mut m = WeightMap::new();
    m.merge("meta.model", cfg.to_weight_map());
    let mut c = ModelConfig::gpt2_small();
    assert_eq!(restore_config(&mut c, &m), Ok(()));
}

#[test]
fn window_splits_into_input_and_next_token_targets() {
    let (input, target) = input_and_targets(&[5, 6, 7, 8]);
    assert_eq!(input, vec![5, 6, 7]);
    assert_eq!(target, vec![6, 7, 8]);
    let (input, target) = input_and_targets(&[9]);
    assert!(input.is_empty() && target.is_empty());
}

#[test]
fn step_updates_only_when_every_micro_batch_is_finite() {
    assert_eq!(step_plan(&[true, true, true], 3), StepPlan { update: true, grad_scale_count: 3 });
    assert_eq!(step_plan(&[true, false], 3), StepPlan { update: false, grad_scale_count: 0 });
    assert_eq!(step_plan(&[false], 3), StepPlan { update: false, grad_scale_count: 0 });
    assert_eq!(step_plan(&[true, true], 3), StepPlan { update: false, grad_scale_count: 0 });
    assert_eq!(step_plan(&[], 0), StepPlan { update: false, grad_scale_count: 0 });
}

#[test]
fn micro_batches_stop_at_the_first_non_finite_loss() {
    assert!(wants_micro_batch(&[], 2));
    assert!(wants_micro_batch(&[true], 2));
    assert!(!wants_micro_batch(&[true, true], 2));
    assert!(!wants_micro_batch(&[false], 2));
    assert!(!wants_micro_batch(&[], 0));
}

#[test]
fn checkpoint_is_saved_when_validation_improves() {
    assert!(after_eval(true));
    assert!(!after_eval(false));
}

#[test]
fn train_loop_runs_from_start_through_end() {
    let mut run = TrainLoop::new(3, 5, 2);
    let mut steps = Vec::new();
    let mut updates = 0;
    let outcomes: [&[bool]; 3] = [&[true, true], &[true, false], &[true, true]];
    let mut k = 0;
    while let Some(step) = run.next_step() {
        steps.push(step);
        let plan = run.finish_step(outcomes[k]);
        if plan.update {
            assert_eq!(plan.grad_scale_count, 2);
            updates += 1;
        }
        k += 1;
    }
    assert_eq!(steps, vec![3, 4, 5]);
    assert_eq!(updates, 2);
    assert!(TrainLoop::new(6, 5, 2).next_step().is_none());
    let mut last = TrainLoop::new(usize::MAX, usize::MAX, 1);
    assert_eq!(last.next_step(), Some(usize::MAX));
    last.finish_step(&[true]);
    assert!(last.next_step().is_none());
}

#[test]
fn update_sets_learning_rate_and_counts_the_step() {
    let mut opt = AdamW::new(1);
    begin_update(&mut opt, StepPlan { update: false, grad_scale_count: 0 }, 7);
    assert_eq!((opt.lr(), opt.step_count()), (1, 0));
    begin_update(&mut opt, StepPlan { update: true, grad_scale_count: 4 }, 7);
    assert_eq!((opt.lr(), opt.step_count()), (7, 1));
    begin_update(&mut opt, StepPlan { update: true, grad_scale_count: 4 }, 9);
    assert_eq!((opt.lr(), opt.step_count()), (9, 2));
}

#[test]
fn written_map_reads_back_with_the_same_entries() {
    let mut m = WeightMap::new();
    m.insert_scalar("s", 3);
    m.insert_vector("v", vec![1.5f32.to_bits(), f32::NAN.to_bits()]);
    m.insert_matrix("x", vec![vec![7], vec![]]);
    m.insert_strings("t", vec!["é".to_string()]);
    let back = WeightMap::read_from(&m.write_to()).unwrap();
    assert_eq!(back.len(), m.len());
    assert_eq!(back.get_scalar("s"), Ok(3));
    assert_eq!(back.get_vector("v").unwrap(), m.get_vector("v").unwrap());
    assert_eq!(back.get_matrix("x").unwrap(), m.get_matrix("x").unwrap());
    assert_eq!(back.get_strings("t").unwrap(), m.get_strings("t").unwrap());
}
