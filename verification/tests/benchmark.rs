use safe_dsa::benchmark::pseudo_random_vec;

#[test]
fn benchmark_input_has_the_expected_values() {
    assert_eq!(pseudo_random_vec(0, 1000), Vec::<i32>::new());
    assert_eq!(pseudo_random_vec(3, 1), vec![95165, 23525, 20050]);
}

#[test]
fn benchmark_input_is_deterministic_and_bounded() {
    let a = pseudo_random_vec(4096, 1097);
    let b = pseudo_random_vec(4096, 1097);
    assert_eq!(a, b);
    assert_eq!(a.len(), 4096);
    assert!(a.iter().all(|v| -100_000 <= *v && *v < 100_000));
    assert_ne!(a, pseudo_random_vec(4096, 1098));
}
