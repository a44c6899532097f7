use nano_vllm_rs::attention::future_mask;

#[test]
fn future_seats_are_masked() {
    let mask = future_mask(3, 3);
    assert_eq!(
        mask,
        vec![
            vec![false, true, true],
            vec![false, false, true],
            vec![false, false, false],
        ]
    );
}

#[test]
fn seat_zero_hears_only_itself() {
    let mask = future_mask(1, 4);
    assert_eq!(mask, vec![vec![false, true, true, true]]);
}

#[test]
fn non_square_and_empty_tables() {
    assert_eq!(future_mask(3, 2), vec![vec![false, true], vec![false, false], vec![false, false]]);
    assert_eq!(future_mask(0, 5), Vec::<Vec<bool>>::new());
    assert_eq!(future_mask(2, 0), vec![Vec::<bool>::new(), Vec::new()]);
}
