use num_bigint::BigUint;
use pascal::exact::{exact_value, ExactValue};

fn number(value: &ExactValue) -> BigUint {
    BigUint::new(value.digits.clone())
}

fn by_factorials(row: u64, column: u64) -> BigUint {
    let mut numerator = BigUint::from(1u8);
    for factor in (row - column + 1)..=row {
        numerator *= BigUint::from(factor);
    }
    let mut denominator = BigUint::from(1u8);
    for factor in 1..=column {
        denominator *= BigUint::from(factor);
    }
    numerator / denominator
}

#[test]
fn small_values() {
    assert_eq!(number(&exact_value(0, 0)), BigUint::from(1u8));
    assert_eq!(number(&exact_value(5, 0)), BigUint::from(1u8));
    assert_eq!(number(&exact_value(5, 5)), BigUint::from(1u8));
    assert_eq!(number(&exact_value(5, 2)), BigUint::from(10u8));
    assert_eq!(number(&exact_value(10, 3)), BigUint::from(120u8));
    assert_eq!(number(&exact_value(16, 2)), BigUint::from(120u8));
    assert_eq!(number(&exact_value(10, 4)), BigUint::from(210u8));
    assert_eq!(number(&exact_value(14, 6)), BigUint::from(3003u16));
    assert_eq!(number(&exact_value(15, 5)), BigUint::from(3003u16));
}

#[test]
fn a_value_beyond_64_bits() {
    let expected = "100891344545564193334812497256".parse::<BigUint>().unwrap();
    assert_eq!(number(&exact_value(100, 50)), expected);
}

#[test]
fn values_agree_with_the_factorial_formula() {
    for row in 0u64..60 {
        for column in 0..=row {
            assert_eq!(number(&exact_value(row, column)), by_factorials(row, column));
        }
    }
    assert_eq!(number(&exact_value(1000, 400)), by_factorials(1000, 400));
}

#[test]
fn rows_are_symmetric() {
    for row in 0u64..80 {
        for column in 0..=row {
            assert_eq!(exact_value(row, column), exact_value(row, row - column));
            assert_eq!(
                number(&exact_value(row, column)),
                number(&exact_value(row, row - column))
            );
        }
    }
}

#[test]
fn rows_obey_the_recurrence() {
    for row in 1u64..50 {
        for column in 1..=row {
            let sum = number(&exact_value(row - 1, column - 1))
                + number(&exact_value(row - 1, column));
            assert_eq!(number(&exact_value(row, column)), sum);
        }
    }
}

#[test]
fn from_u64_leaves_no_leading_zeros() {
    assert_eq!(ExactValue::from_u64(0).digits, Vec::<u32>::new());
    assert_eq!(ExactValue::from_u64(1).digits, vec![1]);
    assert_eq!(ExactValue::from_u64(1 << 32).digits, vec![0, 1]);
    assert_eq!(ExactValue::from_u64(u64::MAX).digits, vec![u32::MAX, u32::MAX]);
    assert_eq!(exact_value(0, 0).digits, vec![1]);
    assert_eq!(exact_value(7, 0).digits, vec![1]);
}

#[test]
fn from_u64_keeps_the_number() {
    assert_eq!(number(&ExactValue::from_u64(0)), BigUint::from(0u8));
    assert_eq!(number(&ExactValue::from_u64(1)), BigUint::from(1u8));
    assert_eq!(number(&ExactValue::from_u64(u64::MAX)), BigUint::from(u64::MAX));
    assert_eq!(
        number(&ExactValue::from_u64(0x1234_5678_9abc_def0)),
        BigUint::from(0x1234_5678_9abc_def0u64)
    );
}

#[test]
fn the_digits_have_no_leading_zeros() {
    assert_eq!(exact_value(10, 3).digits, vec![120]);
    assert_eq!(exact_value(16, 2), exact_value(10, 3));
    assert_ne!(exact_value(16, 2), exact_value(10, 4));
    assert_eq!(exact_value(40, 20).digits, vec![0x184b_1b34, 0x20]);
}
