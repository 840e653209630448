use crt_solver::chinese_remainder_theorem;
use crt_solver::extended_gcd;
use crt_solver::mod_inverse;

#[test]
fn extended_gcd_of_coprime_pair() {
    let (g, x, y) = extended_gcd(3, 5);
    assert_eq!(g, 1);
    assert_eq!(3 * x + 5 * y, 1);
}

#[test]
fn extended_gcd_of_multiples() {
    let (g, x, y) = extended_gcd(35, 15);
    assert_eq!(g, 5);
    assert_eq!(35 * x + 15 * y, 5);
}

#[test]
fn extended_gcd_with_zero_first() {
    assert_eq!(extended_gcd(0, 7), (7, 0, 1));
}

#[test]
fn extended_gcd_with_zero_second() {
    let (g, x, y) = extended_gcd(9, 0);
    assert_eq!(g, 9);
    assert_eq!(9 * x + 0 * y, 9);
}

#[test]
fn extended_gcd_of_zeros() {
    assert_eq!(extended_gcd(0, 0), (0, 0, 1));
}

#[test]
fn extended_gcd_of_large_inputs() {
    let a: i64 = i64::MAX;
    let b: i64 = i64::MAX - 1;
    let (g, x, y) = extended_gcd(a, b);
    assert_eq!(g, 1);
    assert_eq!((a as i128) * (x as i128) + (b as i128) * (y as i128), 1);
}

#[test]
fn mod_inverse_of_coprime_values() {
    assert_eq!(mod_inverse(3, 7), Some(5));
    assert_eq!(mod_inverse(2, 5), Some(3));
    assert_eq!((3 * 5) % 7, 1);
}

#[test]
fn mod_inverse_modulo_prime() {
    let inv = mod_inverse(10, 13).unwrap();
    assert!((0..13).contains(&inv));
    assert_eq!((10 * inv) % 13, 1);
}

#[test]
fn mod_inverse_absent_for_shared_factor() {
    assert_eq!(mod_inverse(4, 6), None);
    assert_eq!(mod_inverse(6, 9), None);
    assert_eq!(mod_inverse(0, 5), None);
}

#[test]
fn mod_inverse_modulo_one() {
    assert_eq!(mod_inverse(0, 1), Some(0));
    assert_eq!(mod_inverse(5, 1), Some(0));
}

#[test]
fn crt_textbook_system() {
    let remainders = vec![2, 3, 2];
    let moduli = vec![3, 5, 7];
    assert_eq!(chinese_remainder_theorem(&remainders, &moduli), Some(23));
}

#[test]
fn crt_solution_satisfies_each_congruence() {
    let remainders = vec![1, 4, 6];
    let moduli = vec![5, 7, 11];
    let x = chinese_remainder_theorem(&remainders, &moduli).unwrap();
    assert!(0 <= x && x < 5 * 7 * 11);
    for i in 0..moduli.len() {
        assert_eq!(x % moduli[i], remainders[i]);
    }
}

#[test]
fn crt_empty_system() {
    let remainders: Vec<i64> = vec![];
    let moduli: Vec<i64> = vec![];
    assert_eq!(chinese_remainder_theorem(&remainders, &moduli), Some(0));
}

#[test]
fn crt_absent_for_non_coprime_moduli() {
    let moduli = vec![4, 6];
    assert_eq!(chinese_remainder_theorem(&[1, 2], &moduli), None);
    assert_eq!(chinese_remainder_theorem(&[0, 0], &moduli), None);
    assert_eq!(chinese_remainder_theorem(&[3, 5], &moduli), None);
}

#[test]
fn crt_absent_when_a_term_overflows() {
    // The product of the moduli (6) times the second remainder exceeds
    // the i64 range, so the failure is overflow, not a wrapped value.
    let remainders = vec![1, 3074457345618258603];
    let moduli = vec![2, 3];
    assert_eq!(chinese_remainder_theorem(&remainders, &moduli), None);
}

#[test]
fn crt_absent_when_the_product_overflows() {
    let remainders = vec![0, 0];
    let moduli = vec![4611686018427387904, 4];
    assert_eq!(chinese_remainder_theorem(&remainders, &moduli), None);
}

#[test]
fn crt_accepts_negative_remainders() {
    // -1 = 2 (mod 3), so this system is x = 2 (mod 3), x = 2 (mod 5).
    let remainders = vec![-1, 2];
    let moduli = vec![3, 5];
    assert_eq!(chinese_remainder_theorem(&remainders, &moduli), Some(2));
}

#[test]
fn crt_normalizes_a_negative_sum() {
    // The accumulated sum is -20; the solution is its least non-negative
    // representative modulo 15.
    let remainders = vec![-2, 0];
    let moduli = vec![3, 5];
    let x = chinese_remainder_theorem(&remainders, &moduli).unwrap();
    assert_eq!(x, 10);
    assert_eq!(x % 3, (-2i64).rem_euclid(3));
    assert_eq!(x % 5, 0);
}

#[test]
fn crt_single_congruence() {
    assert_eq!(chinese_remainder_theorem(&[4], &[9]), Some(4));
    assert_eq!(chinese_remainder_theorem(&[13], &[9]), Some(4));
}

#[test]
fn crt_with_modulus_one() {
    assert_eq!(chinese_remainder_theorem(&[0, 3], &[1, 7]), Some(3));
}
