use georbf::dyadic::{add_magnitudes, compare_magnitudes, subtract_magnitudes, ExactDyadic};
use std::cmp::Ordering;

fn dyadic(value: i64) -> ExactDyadic {
    ExactDyadic::normalized(value < 0, vec![value.unsigned_abs()])
}

#[test]
fn magnitudes_add_with_carry() {
    assert_eq!(add_magnitudes(&[u64::MAX], &[1]), vec![0, 1]);
    assert_eq!(add_magnitudes(&[1, 2], &[3]), vec![4, 2]);
    assert_eq!(add_magnitudes(&[], &[]), Vec::<u64>::new());
    assert_eq!(add_magnitudes(&[u64::MAX, u64::MAX], &[1]), vec![0, 0, 1]);
}

#[test]
fn magnitudes_subtract_with_borrow() {
    assert_eq!(subtract_magnitudes(&[0, 1], &[1]), vec![u64::MAX, 0]);
    assert_eq!(subtract_magnitudes(&[5, 7], &[3, 7]), vec![2, 0]);
    assert_eq!(subtract_magnitudes(&[9], &[]), vec![9]);
}

#[test]
fn magnitudes_compare_by_length_then_value() {
    assert_eq!(compare_magnitudes(&[1], &[0, 1]), Ordering::Less);
    assert_eq!(compare_magnitudes(&[0, 1], &[u64::MAX]), Ordering::Greater);
    assert_eq!(compare_magnitudes(&[3, 2], &[4, 1]), Ordering::Greater);
    assert_eq!(compare_magnitudes(&[3, 2], &[3, 2]), Ordering::Equal);
    assert_eq!(compare_magnitudes(&[], &[]), Ordering::Equal);
}

#[test]
fn signed_sums_are_exact() {
    let five = dyadic(5);
    let minus_eight = dyadic(-8);
    let sum = five.add(&minus_eight);
    assert!(sum.is_negative());
    assert_eq!(sum.magnitude(), &[3]);
    let back = sum.add(&dyadic(8));
    assert!(back.is_positive());
    assert_eq!(back.magnitude(), &[5]);
    let zero = five.add(&five.negated());
    assert!(!zero.is_positive());
    assert!(!zero.is_negative());
    assert!(zero.magnitude().is_empty());
}

#[test]
fn sums_carry_into_a_new_limb() {
    let big = ExactDyadic::normalized(false, vec![u64::MAX]);
    let sum = big.add(&dyadic(1));
    assert_eq!(sum.magnitude(), &[0, 1]);
    let difference = sum.add(&dyadic(-1));
    assert_eq!(difference.magnitude(), &[u64::MAX]);
}

#[test]
fn normalization_drops_high_zero_limbs_and_negative_zero() {
    let value = ExactDyadic::normalized(true, vec![0, 0, 0]);
    assert!(!value.is_negative());
    assert!(value.magnitude().is_empty());
    let trimmed = ExactDyadic::normalized(false, vec![7, 0, 0]);
    assert_eq!(trimmed.magnitude(), &[7]);
    assert!(ExactDyadic::zero().magnitude().is_empty());
}

#[test]
fn ordering_follows_values() {
    assert!(dyadic(3).is_greater_than(&dyadic(-4)));
    assert!(!dyadic(-4).is_greater_than(&dyadic(3)));
    assert!(dyadic(-3).is_greater_than(&dyadic(-4)));
    assert!(!dyadic(2).is_greater_than(&dyadic(2)));
    assert!(ExactDyadic::normalized(false, vec![0, 1]).is_greater_than(&dyadic(i64::MAX)));
    assert!(dyadic(1).is_positive());
    assert!(!dyadic(-1).is_positive());
}

fn limbs_of(value: f64) -> (bool, Vec<u64>) {
    let exact = ExactDyadic::from_binary64_bits(value.to_bits());
    (exact.is_negative(), exact.magnitude().to_vec())
}

#[test]
fn binary64_values_are_exact_multiples_of_the_finest_unit() {
    let mut one = vec![0_u64; 17];
    one[16] = 1 << 50;
    assert_eq!(limbs_of(1.0), (false, one));
    let mut minus_two = vec![0_u64; 17];
    minus_two[16] = 1 << 51;
    assert_eq!(limbs_of(-2.0), (true, minus_two));
    let mut three = vec![0_u64; 17];
    three[16] = 3 << 50;
    assert_eq!(limbs_of(3.0), (false, three));
    assert_eq!(limbs_of(f64::from_bits(1)), (false, vec![1]));
}

#[test]
fn both_binary64_zeros_are_zero() {
    assert_eq!(limbs_of(0.0), (false, vec![]));
    assert_eq!(limbs_of(-0.0), (false, vec![]));
}

#[test]
fn binary64_halves_add_exactly() {
    let half = ExactDyadic::from_binary64_bits(0.5_f64.to_bits());
    let one = ExactDyadic::from_binary64_bits(1.0_f64.to_bits());
    let sum = half.add(&half);
    assert!(!sum.is_greater_than(&one));
    assert!(!one.is_greater_than(&sum));
    let tenth = ExactDyadic::from_binary64_bits(0.1_f64.to_bits());
    let two_tenths = ExactDyadic::from_binary64_bits(0.2_f64.to_bits());
    let three_tenths = ExactDyadic::from_binary64_bits(0.3_f64.to_bits());
    assert!(tenth.add(&two_tenths).is_greater_than(&three_tenths));
}
