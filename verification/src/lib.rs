//! Verified core of a decoder-only transformer training toolkit: tokenizers,
//! the checkpoint file format, dataset windows and tensor bookkeeping.

pub mod keys;
pub mod char_tokenizer;
pub mod checkpoint;
pub mod codec;
pub mod dataset;
pub mod format;
pub mod generation;
pub mod gpu_tensor;
pub mod le_bytes;
pub mod lr_scheduler;
pub mod model;
pub mod model_config;
pub mod optimizer;
pub mod table;
pub mod tokenizer;
pub mod training;
pub mod util;
