use safe_dsa::number_theory::field::{
    is_prime_u64, square_bound_ok, valid_modulus, Assert, Field, Fp, IsTrue,
};

type F7 = Fp<7>;

#[test]
fn fp_basic_ops() {
    let a = F7::new(3);
    let b = F7::new(5);
    assert_eq!((a + b).value(), 1);
    assert_eq!((a * b).value(), 1);
    assert_eq!((a - b).value(), 5);
    assert_eq!((a / b).value(), (a * b.inv()).value());
}

fn needs_truth<T: IsTrue>(_t: T) -> bool {
    true
}

#[test]
fn assert_true_is_true() {
    assert!(needs_truth(Assert::<true>));
}

#[test]
fn small_primes_are_recognised() {
    let primes: Vec<u64> = (0..60).filter(|p| is_prime_u64(*p)).collect();
    assert_eq!(primes, vec![2, 3, 5, 7, 11, 13, 17, 19, 23, 29, 31, 37, 41, 43, 47, 53, 59]);
}

#[test]
fn large_numbers_are_tested_for_primality() {
    assert!(is_prime_u64(1_000_003));
    assert!(is_prime_u64(4_294_967_291));
    assert!(!is_prime_u64(4_294_967_295));
    assert!(!is_prime_u64(1_000_003 * 1_000_003));
    assert!(!is_prime_u64(u64::MAX));
}

#[test]
fn square_bound_is_at_two_to_the_thirty_two() {
    assert!(!square_bound_ok(0));
    assert!(square_bound_ok(1));
    assert!(square_bound_ok(7));
    assert!(square_bound_ok(4_294_967_296));
    assert!(!square_bound_ok(4_294_967_297));
    assert!(!square_bound_ok(u64::MAX));
}

#[test]
fn valid_moduli_are_primes_within_the_bound() {
    assert!(valid_modulus(7));
    assert!(valid_modulus(4_294_967_291));
    assert!(!valid_modulus(8));
    assert!(!valid_modulus(0));
    assert!(!valid_modulus(1));
    assert!(!valid_modulus(18_446_744_073_709_551_557));
}

#[test]
fn new_reduces_modulo_p() {
    assert_eq!(F7::new(0).value(), 0);
    assert_eq!(F7::new(6).value(), 6);
    assert_eq!(F7::new(7).value(), 0);
    assert_eq!(F7::new(100).value(), 2);
    assert_eq!(F7::new(u64::MAX).value(), u64::MAX % 7);
}

#[test]
fn addition_and_subtraction_wrap_around() {
    let a = F7::new(6);
    let b = F7::new(6);
    assert_eq!((a + b).value(), 5);
    assert_eq!((a - b).value(), 0);
    assert_eq!((F7::new(0) - F7::new(1)).value(), 6);
    assert_eq!((F7::new(0) + F7::new(0)).value(), 0);
}

#[test]
fn negation_gives_the_additive_inverse() {
    assert_eq!((-F7::new(0)).value(), 0);
    assert_eq!((-F7::new(1)).value(), 6);
    assert_eq!((-F7::new(6)).value(), 1);
    assert_eq!((F7::new(3) + (-F7::new(3))).value(), 0);
}

#[test]
fn zero_and_one_are_the_identities() {
    assert_eq!(F7::zero().value(), 0);
    assert_eq!(F7::one().value(), 1);
    assert!(F7::zero().is_zero());
    assert!(!F7::one().is_zero());
    assert!(F7::new(14).is_zero());
    assert_eq!(F7::new(4) * F7::one(), F7::new(4));
    assert_eq!(F7::new(4) + F7::zero(), F7::new(4));
}

#[test]
fn inverse_and_division() {
    assert_eq!(F7::new(5).inv().value(), 3);
    assert_eq!((F7::new(3) / F7::new(5)).value(), 2);
    for x in 1..7 {
        assert_eq!((F7::new(x) * F7::new(x).inv()).value(), 1);
    }
    type Big = Fp<1_000_003>;
    assert_eq!(Big::new(123_456).inv().value(), 414_894);
    assert_eq!((Big::new(123_456) * Big::new(123_456).inv()).value(), 1);
}

#[test]
fn integer_powers() {
    assert_eq!(F7::new(3).powi(0).value(), 1);
    assert_eq!(F7::new(0).powi(0).value(), 1);
    assert_eq!(F7::new(3).powi(1).value(), 3);
    assert_eq!(F7::new(3).powi(4).value(), 4);
    assert_eq!(F7::new(3).powi(6).value(), 1);
    assert_eq!(F7::new(0).powi(5).value(), 0);
    assert_eq!(F7::new(3).powi(-2).value(), 4);
    assert_eq!(F7::new(3).powi(-1).value(), 5);
    type Big = Fp<1_000_003>;
    assert_eq!(Big::new(2).powi(62).value(), 837_674);
    assert_eq!(Big::new(2).powi(i64::MAX).value(), Big::new(2).powi(i64::MAX % 1_000_002).value());
}

#[test]
fn division_undoes_multiplication() {
    for a in 0..7 {
        for b in 1..7 {
            assert_eq!((F7::new(a) / F7::new(b)) * F7::new(b), F7::new(a));
        }
    }
    type Big = Fp<4_294_967_291>;
    let a = Big::new(123_456_789);
    let b = Big::new(4_000_000_000);
    assert_eq!((a / b) * b, a);
    assert_eq!((b * b.inv()).value(), 1);
}
