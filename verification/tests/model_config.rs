use transformer_gpu::checkpoint::{Checkpointable, WeightMap};
use transformer_gpu::format::{CheckpointError, EntryKind};
use transformer_gpu::model_config::ModelConfig;

#[test]
fn presets_hold_their_settings() {
    let c = ModelConfig::default();
    assert_eq!((c.vocab_size, c.d_model, c.n_heads, c.n_kv_heads), (256, 64, 4, 4));
    assert_eq!((c.d_ff, c.n_layers, c.max_seq_len), (128, 2, 128));
    assert_eq!(f32::from_bits(c.dropout_p_bits), 0.1);
    assert_eq!(f32::from_bits(c.eps_bits), 1e-6);
    assert_eq!(f32::from_bits(c.rope_base_bits), 10_000.0);

    let l = ModelConfig::llama3_2();
    assert_eq!((l.vocab_size, l.d_model, l.n_heads, l.n_kv_heads), (128_256, 2048, 32, 8));
    assert_eq!((l.d_ff, l.n_layers, l.max_seq_len), (8192, 16, 131_072));
    assert_eq!(f32::from_bits(l.dropout_p_bits), 0.0);
    assert_eq!(f32::from_bits(l.rope_base_bits), 500_000.0);

    let g = ModelConfig::gpt2_small();
    assert_eq!((g.vocab_size, g.d_model, g.n_heads, g.n_kv_heads), (50_257, 768, 12, 12));
    assert_eq!((g.d_ff, g.n_layers, g.max_seq_len), (3072, 12, 1024));
    assert_eq!(f32::from_bits(g.eps_bits), 1e-5);

    let t = ModelConfig::tiny_shakespeare();
    assert_eq!((t.vocab_size, t.d_model, t.n_heads, t.n_kv_heads), (4000, 256, 8, 8));
    assert_eq!((t.d_ff, t.n_layers, t.max_seq_len), (1024, 4, 128));
}

#[test]
fn head_width_divides_model_width() {
    assert_eq!(ModelConfig::default().d_head(), 16);
    assert_eq!(ModelConfig::llama3_2().d_head(), 64);
    assert_eq!(ModelConfig::gpt2_small().d_head(), 64);
    assert_eq!(ModelConfig::tiny_shakespeare().d_head(), 32);
}

#[test]
fn config_weight_map_holds_the_shape_settings() {
    let c = ModelConfig::gpt2_small();
    let m = c.to_weight_map();
    assert_eq!(m.len(), Some(7));
    assert_eq!(m.get_scalar("vocab_size"), Ok(50_257));
    assert_eq!(m.get_scalar("d_model"), Ok(768));
    assert_eq!(m.get_scalar("n_heads"), Ok(12));
    assert_eq!(m.get_scalar("n_kv_heads"), Ok(12));
    assert_eq!(m.get_scalar("d_ff"), Ok(3072));
    assert_eq!(m.get_scalar("n_layers"), Ok(12));
    assert_eq!(m.get_scalar("max_seq_len"), Ok(1024));
}

#[test]
fn config_restores_from_its_own_map() {
    let mut c = ModelConfig::tiny_shakespeare();
    let m = c.to_weight_map();
    assert_eq!(c.from_weight_map(&m), Ok(()));
    let back = WeightMap::read_from(&m.write_to()).unwrap();
    assert_eq!(c.from_weight_map(&back), Ok(()));
}

#[test]
fn config_mismatch_reports_key_expected_and_found() {
    let mut m = ModelConfig::default().to_weight_map();
    m.insert_scalar("d_ff", 512);
    m.insert_scalar("n_layers", 9);
    let mut c = ModelConfig::default();
    assert_eq!(
        c.from_weight_map(&m),
        Err(CheckpointError::ConfigMismatch("d_ff".to_string(), 128, 512))
    );
    assert_eq!(c.d_ff, 128);
}

#[test]
fn config_with_missing_setting_is_rejected() {
    let mut m = WeightMap::new();
    m.insert_scalar("vocab_size", 256);
    let mut c = ModelConfig::default();
    assert_eq!(
        c.from_weight_map(&m),
        Err(CheckpointError::Missing(EntryKind::Scalar, "d_model".to_string()))
    );
}
