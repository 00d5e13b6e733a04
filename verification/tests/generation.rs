use transformer_gpu::generation::Generation;

#[test]
fn generation_appends_until_the_budget_is_spent() {
    let mut g = Generation::new(&[5, 6], 2, usize::MAX);
    assert!(!g.is_done());
    assert_eq!(g.next_logits_range(10), (10, 20));
    assert!(g.accept(7));
    assert_eq!(g.tokens(), &vec![5, 6, 7]);
    assert_eq!(g.next_logits_range(10), (20, 30));
    assert!(g.accept(1));
    assert!(g.is_done());
    assert_eq!(g.output_ids(), vec![5, 6, 7, 1]);
}

#[test]
fn end_of_sequence_stops_without_being_appended() {
    let mut g = Generation::new(&[1], 100, 3);
    assert!(g.accept(2));
    assert!(!g.accept(3));
    assert!(g.is_done());
    assert_eq!(g.output_ids(), vec![1, 2]);
}

#[test]
fn zero_budget_is_done_at_once() {
    let g = Generation::new(&[4, 4], 0, 0);
    assert!(g.is_done());
    assert_eq!(g.output_ids(), vec![4, 4]);
}
