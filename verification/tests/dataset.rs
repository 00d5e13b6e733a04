use rand::rngs::StdRng;
use rand::SeedableRng;
use transformer_gpu::dataset::{Dataset, Split};

#[test]
fn text_bytes_split_at_train_length() {
    let d = Dataset::from_str_at("hello", 3);
    assert_eq!(d.train, vec![104, 101, 108]);
    assert_eq!(d.val, vec![108, 111]);
    assert_eq!(d.val_text_len_chars, 2);
}

#[test]
fn text_split_counts_utf8_bytes() {
    let d = Dataset::from_str_at("aé", 1);
    assert_eq!(d.train, vec![97]);
    assert_eq!(d.val, vec![0xC3, 0xA9]);
    assert_eq!(d.val_text_len_chars, 2);
}

#[test]
fn tokens_split_keeps_the_tail_for_validation() {
    let d = Dataset::from_tokens_at(vec![1, 2, 3, 4, 5], 2, 17);
    assert_eq!(d.train, vec![1, 2, 3]);
    assert_eq!(d.val, vec![4, 5]);
    assert_eq!(d.val_text_len_chars, 17);
}

#[test]
fn window_is_seq_len_plus_one_tokens() {
    let d = Dataset::from_tokens_at((0..10).collect(), 4, 0);
    assert_eq!(d.window_at(Split::Train, 2, 3), vec![3, 4, 5]);
    assert_eq!(d.window_at(Split::Val, 3, 0), vec![6, 7, 8, 9]);
}

#[test]
fn sampled_window_is_a_run_of_the_part() {
    let d = Dataset::from_tokens_at((0..50).collect(), 10, 0);
    let mut rng = StdRng::seed_from_u64(7);
    for _ in 0..100 {
        let w = d.sample_window(Split::Train, 4, &mut rng);
        assert_eq!(w.len(), 5);
        assert!(w[4] < 40);
        for k in 1..5 {
            assert_eq!(w[k], w[0] + k as u32);
        }
        let v = d.sample_window(Split::Val, 9, &mut rng);
        assert_eq!(v, (40..50).collect::<Vec<u32>>());
    }
}

#[test]
fn sampled_windows_start_at_varying_offsets() {
    let d = Dataset::from_tokens_at((0..200).collect(), 10, 0);
    let mut rng = StdRng::seed_from_u64(11);
    let starts: Vec<u32> = (0..50).map(|_| d.sample_window(Split::Train, 8, &mut rng)[0]).collect();
    assert!(starts.iter().all(|&s| s <= 190 - 9));
    assert!(starts.iter().any(|&s| s != starts[0]));
    assert!(starts.iter().any(|&s| s != 190 - 9));
}

#[test]
fn max_offset_is_the_last_start_that_fits() {
    let d = Dataset::from_tokens_at((0..50).collect(), 10, 0);
    assert_eq!(d.max_offset(Split::Train, 4), 35);
    assert_eq!(d.max_offset(Split::Val, 9), 0);
    assert_eq!(d.max_offset(Split::Val, 0), 9);
}
