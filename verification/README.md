# transformer_gpu

Support code for training a decoder-only transformer language model on the GPU
with wgpu, with its logic proved correct in Verus.

`src/` is the verified library:

- `char_tokenizer`, `tokenizer`: the character tokenizer (lossless on its
  training text) and the tokenizer kinds with their stored tags.
- `format`, `codec`, `le_bytes`, `keys`, `table`, `checkpoint`: the weight map
  (scalars, `f32` vectors and matrices as bit patterns, string lists) and its
  checkpoint file format, with the proof that reading a written file gives the
  same map back, and that a scoped view gives back what was merged under a scope.
- `model_config`, `model`, `optimizer`, `training`: the model hyper-parameters,
  the model's weights, the AdamW state, and the metadata of a checkpoint, each
  with the proof that restoring from what was saved gives the saved values back.
- `training` also holds the decisions of the training loop: the steps from
  the start step through the end step, when a step draws another micro-batch,
  when it makes an update and over how many micro-batches, and when a
  checkpoint is saved; with the proof that a run makes one update per step
  whose losses were all finite.
- `lr_scheduler`: the phase of each step in a warm-up/cosine or
  warm-up/stable/decay schedule.
- `dataset`, `generation`, `util`, `gpu_tensor`: train/validation splits and
  windows, the token loop of generation, splitting a matrix into attention heads
  and joining them again, and tensor sizes.

`app/` holds what runs around the library: file and GPU I/O, the `f32`
arithmetic (learning rates, sampling, the AdamW update, tensor statistics), and
the training and generation loops around a model supplied through a trait, and
a `main` that prepares a corpus and writes a starting checkpoint.

`tests/` holds the tests of the library.
