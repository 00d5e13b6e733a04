use transformer_gpu::checkpoint::{Checkpointable, WeightMap};
use transformer_gpu::format::{CheckpointError, EntryKind};
use transformer_gpu::model::{Attention, Ffn, LanguageModel, TransformerBlock};

fn block(seed: u32) -> TransformerBlock {
    TransformerBlock {
        attn: Attention { w_q: vec![seed, 1], w_k: vec![seed, 2], w_v: vec![seed, 3], w_o: vec![seed, 4] },
        ffn: Ffn { w_gate: vec![seed, 5], w_up: vec![seed, 6], w_down: vec![seed, 7] },
        gamma_1: vec![seed, 8],
        gamma_2: vec![seed, 9],
    }
}

fn model(n_blocks: u32, seed: u32) -> LanguageModel {
    LanguageModel {
        embedding: vec![seed, 100],
        blocks: (0..n_blocks).map(|b| block(seed + b)).collect(),
        final_gamma: vec![seed, 101],
        lm_head: vec![seed, 102],
    }
}

#[test]
fn model_weight_map_names_every_tensor() {
    let m = model(12, 1000);
    let map = m.to_weight_map();
    assert_eq!(map.len(), Some(3 + 9 * 12));
    assert_eq!(map.get_vector("embedding").unwrap(), &vec![1000, 100]);
    assert_eq!(map.get_vector("final_gamma").unwrap(), &vec![1000, 101]);
    assert_eq!(map.get_vector("lm_head").unwrap(), &vec![1000, 102]);
    assert_eq!(map.get_vector("block.0.gamma_1").unwrap(), &vec![1000, 8]);
    assert_eq!(map.get_vector("block.0.wq").unwrap(), &vec![1000, 1]);
    assert_eq!(map.get_vector("block.10.w_gate").unwrap(), &vec![1010, 5]);
    assert_eq!(map.get_vector("block.11.w_down").unwrap(), &vec![1011, 7]);
    assert!(map.get_vector("block.12.wq").is_err());
}

#[test]
fn model_restores_from_its_checkpoint() {
    let saved = model(3, 7);
    let bytes = saved.to_weight_map().write_to();
    let map = WeightMap::read_from(&bytes).unwrap();
    let mut m = model(3, 50);
    assert_eq!(m.from_weight_map(&map), Ok(()));
    assert_eq!(m.embedding, saved.embedding);
    assert_eq!(m.lm_head, saved.lm_head);
    for b in 0..3 {
        assert_eq!(m.blocks[b].attn.w_v, saved.blocks[b].attn.w_v);
        assert_eq!(m.blocks[b].ffn.w_up, saved.blocks[b].ffn.w_up);
        assert_eq!(m.blocks[b].gamma_2, saved.blocks[b].gamma_2);
    }
}

#[test]
fn missing_tensor_stops_the_restore_and_keeps_what_was_read() {
    let saved = model(1, 7);
    let mut map = WeightMap::new();
    for key in ["embedding", "final_gamma", "lm_head", "block.0.gamma_1", "block.0.gamma_2"] {
        map.insert_vector(key, saved.to_weight_map().get_vector(key).unwrap().clone());
    }
    let mut m = model(1, 50);
    assert_eq!(
        m.from_weight_map(&map),
        Err(CheckpointError::Missing(EntryKind::Vector, "block.0.wq".to_string()))
    );
    assert_eq!(m.embedding, saved.embedding);
    assert_eq!(m.blocks[0].gamma_2, saved.blocks[0].gamma_2);
    assert_eq!(m.blocks[0].attn.w_q, vec![50, 1]);
}

#[test]
fn larger_checkpoint_fills_a_smaller_model() {
    let saved = model(4, 7);
    let map = saved.to_weight_map();
    let mut m = model(2, 50);
    assert_eq!(m.from_weight_map(&map), Ok(()));
    assert_eq!(m.blocks.len(), 2);
    assert_eq!(m.blocks[1].ffn.w_down, saved.blocks[1].ffn.w_down);
}
