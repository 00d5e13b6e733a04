use transformer_gpu::checkpoint::{Checkpointable, WeightMap};
use transformer_gpu::format::{CheckpointError, EntryKind};
use transformer_gpu::optimizer::{AdamW, ParamState, BETA1_BITS, BETA2_BITS, DEFAULT_WD_BITS, EPS_BITS, ONE_BITS};

fn bits(xs: &[f32]) -> Vec<u32> {
    xs.iter().map(|x| x.to_bits()).collect()
}

fn state(data: &[f32], m: &[f32], v: &[f32]) -> ParamState {
    ParamState { data: bits(data), m: bits(m), v: bits(v) }
}

#[test]
fn new_optimizer_has_default_settings() {
    let o = AdamW::new(1e-3f32.to_bits());
    assert_eq!(f32::from_bits(o.lr()), 1e-3);
    assert_eq!(f32::from_bits(o.beta1()), 0.9);
    assert_eq!(f32::from_bits(o.beta2()), 0.999);
    assert_eq!(f32::from_bits(o.eps()), 1e-8);
    assert_eq!(f32::from_bits(o.weight_decay()), 0.01);
    assert_eq!(f32::from_bits(o.grad_scale()), 1.0);
    assert_eq!(o.step_count(), 0);
    assert!(o.param("w").is_none());
    assert_eq!((BETA1_BITS, BETA2_BITS, EPS_BITS, DEFAULT_WD_BITS, ONE_BITS), (
        0.9f32.to_bits(),
        0.999f32.to_bits(),
        1e-8f32.to_bits(),
        0.01f32.to_bits(),
        1.0f32.to_bits()
    ));
}

#[test]
fn setters_change_one_setting() {
    let mut o = AdamW::new_with_wd(5e-4f32.to_bits(), 0.1f32.to_bits());
    assert_eq!(f32::from_bits(o.weight_decay()), 0.1);
    o.set_lr(2e-4f32.to_bits());
    o.set_beta2(0.95f32.to_bits());
    o.set_wd(0.0f32.to_bits());
    o.set_grad_scale(0.25f32.to_bits());
    o.increment_step();
    o.increment_step();
    assert_eq!(f32::from_bits(o.lr()), 2e-4);
    assert_eq!(f32::from_bits(o.beta2()), 0.95);
    assert_eq!(f32::from_bits(o.weight_decay()), 0.0);
    assert_eq!(f32::from_bits(o.grad_scale()), 0.25);
    assert_eq!(o.step_count(), 2);
    o.reset_grad_scale();
    assert_eq!(f32::from_bits(o.grad_scale()), 1.0);
}

#[test]
fn optimizer_weight_map_layout() {
    let mut o = AdamW::new(1e-3f32.to_bits());
    o.increment_step();
    o.set_param("b0.wq", state(&[1.0, 2.0], &[0.1, 0.2], &[0.01, 0.02]));
    let m = o.to_weight_map();
    assert_eq!(m.get_scalar("lr"), Ok(1e-3f32.to_bits() as u64));
    assert_eq!(m.get_scalar("step_count"), Ok(1));
    assert_eq!(m.get_scalar("grad_scale"), Ok(1.0f32.to_bits() as u64));
    assert_eq!(m.get_vector("data.b0.wq").unwrap(), &bits(&[1.0, 2.0]));
    assert_eq!(m.get_vector("m.b0.wq").unwrap(), &bits(&[0.1, 0.2]));
    assert_eq!(m.get_vector("v.b0.wq").unwrap(), &bits(&[0.01, 0.02]));
    assert_eq!(m.len(), Some(10));
}

#[test]
fn optimizer_restores_from_its_checkpoint() {
    let mut o = AdamW::new_with_wd(3e-4f32.to_bits(), 0.05f32.to_bits());
    for _ in 0..7 {
        o.increment_step();
    }
    o.set_param("embedding", state(&[1.0, -1.0, 0.5], &[0.0, 0.1, 0.2], &[0.3, 0.4, 0.5]));
    o.set_param("lm_head", state(&[2.0], &[0.5], &[0.25]));
    let bytes = o.to_weight_map().write_to();
    let map = WeightMap::read_from(&bytes).unwrap();

    let mut r = AdamW::new(0);
    r.set_param("other", state(&[9.0], &[0.0], &[0.0]));
    assert_eq!(r.from_weight_map(&map), Ok(()));
    assert_eq!(r.step_count(), 7);
    assert_eq!(f32::from_bits(r.lr()), 3e-4);
    assert_eq!(f32::from_bits(r.weight_decay()), 0.05);
    let e = r.param("embedding").unwrap();
    assert_eq!(e.data, bits(&[1.0, -1.0, 0.5]));
    assert_eq!(e.m, bits(&[0.0, 0.1, 0.2]));
    assert_eq!(e.v, bits(&[0.3, 0.4, 0.5]));
    assert_eq!(r.param("lm_head").unwrap().v, bits(&[0.25]));
    assert_eq!(r.param("other").unwrap().data, bits(&[9.0]));
}

#[test]
fn weights_without_moments_get_zero_moments() {
    let mut map = AdamW::new(1).to_weight_map();
    map.insert_vector("data.w", bits(&[1.0, 2.0]));
    let mut r = AdamW::new(0);
    assert_eq!(r.from_weight_map(&map), Ok(()));
    let p = r.param("w").unwrap();
    assert_eq!(p.data, bits(&[1.0, 2.0]));
    assert_eq!(p.m, vec![0, 0]);
    assert_eq!(p.v, vec![0, 0]);
}

#[test]
fn moment_without_weights_is_a_size_mismatch() {
    let mut map = AdamW::new(1).to_weight_map();
    map.insert_vector("m.w", bits(&[1.0]));
    let mut r = AdamW::new(0);
    assert_eq!(r.from_weight_map(&map), Err(CheckpointError::StateSizeMismatch("w".to_string())));
}

#[test]
fn moments_of_another_length_are_a_size_mismatch() {
    let mut map = AdamW::new(1).to_weight_map();
    map.insert_vector("data.a", bits(&[1.0]));
    map.insert_vector("data.b", bits(&[1.0]));
    map.insert_vector("v.b", bits(&[1.0, 2.0]));
    let mut r = AdamW::new(0);
    assert_eq!(r.from_weight_map(&map), Err(CheckpointError::StateSizeMismatch("b".to_string())));
}

#[test]
fn missing_setting_stops_the_restore() {
    let mut map = WeightMap::new();
    map.insert_scalar("lr", 5);
    map.insert_scalar("beta1", 6);
    map.insert_scalar("eps", 7);
    let mut r = AdamW::new(0);
    assert_eq!(
        r.from_weight_map(&map),
        Err(CheckpointError::Missing(EntryKind::Scalar, "beta2".to_string()))
    );
    assert_eq!(r.lr(), 5);
    assert_eq!(r.beta1(), 6);
    assert_eq!(r.eps(), EPS_BITS);
}
