use pascal::solver::{find_choose_r, is_choose2, is_choose_r, is_square};
use num_bigint::BigUint;
use pascal::exact::exact_value;
use pascal::uint::UInt;

fn small(x: u64) -> UInt {
    UInt::from_u64(x)
}

fn wide(row: u64, column: u64) -> UInt {
    let digits = BigUint::new(exact_value(row, column).digits).to_u64_digits();
    let mut limbs = [0u64; 4];
    for (limb, digit) in limbs.iter_mut().zip(digits.iter()) {
        *limb = *digit;
    }
    assert!(digits.len() <= 4);
    UInt { limbs }
}

#[test]
fn find_choose_of_120() {
    assert_eq!(find_choose_r(small(120), 2), Some(small(16)));
    assert_eq!(find_choose_r(small(120), 3), Some(small(10)));
    assert_eq!(find_choose_r(small(120), 4), None);
    assert_eq!(find_choose_r(small(121), 2), None);
}

#[test]
fn find_choose_of_210() {
    assert_eq!(find_choose_r(small(210), 4), Some(small(10)));
    assert_eq!(find_choose_r(small(210), 2), Some(small(21)));
}

#[test]
fn find_choose_of_3003() {
    assert_eq!(find_choose_r(small(3003), 2), Some(small(78)));
    assert_eq!(find_choose_r(small(3003), 5), Some(small(15)));
    assert_eq!(find_choose_r(small(3003), 6), Some(small(14)));
    assert_eq!(find_choose_r(small(3003), 3), None);
}

#[test]
fn find_choose_starts_above_the_order() {
    assert_eq!(find_choose_r(small(1), 2), None);
    assert_eq!(find_choose_r(small(1), 5), None);
    assert_eq!(find_choose_r(small(0), 3), None);
    assert_eq!(find_choose_r(small(3), 2), Some(small(3)));
    assert_eq!(find_choose_r(small(34), 33), Some(small(34)));
    assert_eq!(find_choose_r(small(16), 15), Some(small(16)));
}

#[test]
fn find_choose_of_order_one() {
    assert_eq!(find_choose_r(small(7), 1), Some(small(7)));
    assert_eq!(find_choose_r(small(2), 1), Some(small(2)));
    assert_eq!(find_choose_r(small(1), 1), None);
}

#[test]
fn is_choose_is_the_projection() {
    assert!(is_choose_r(small(120), 2));
    assert!(!is_choose_r(small(121), 2));
    assert!(is_choose_r(small(1001), 4));
}

#[test]
fn squares() {
    assert!(is_square(small(0)));
    assert!(is_square(small(1)));
    assert!(is_square(small(144)));
    assert!(!is_square(small(145)));
    assert!(is_square(UInt { limbs: [0, 0, 1, 0] }));
    assert!(!is_square(UInt { limbs: [1, 0, 1, 0] }));
}

#[test]
fn triangular_numbers() {
    for m in 1u64..200 {
        assert!(is_choose2(small(m * (m - 1) / 2)));
    }
    assert!(!is_choose2(small(2)));
    assert!(!is_choose2(small(121)));
    assert!(is_choose2(small(3003)));
}

fn falling_factorial_bits(row: u64, column: u64) -> u64 {
    let mut product = BigUint::from(1u8);
    for factor in (row - column + 1)..=row {
        product *= BigUint::from(factor);
    }
    product.bits()
}

#[test]
fn the_solver_inverts_the_oracle() {
    let mut upper_half = 0;
    for row in 2u64..70 {
        for column in 1..row {
            if falling_factorial_bits(row, column) <= 253 {
                let found = find_choose_r(wide(row, column), column as u32);
                assert_eq!(found, Some(small(row)));
                if 2 * column > row + 1 {
                    upper_half += 1;
                }
            }
        }
    }
    assert!(upper_half > 500);
}

#[test]
fn the_last_entry_of_a_row_is_not_looked_for() {
    for row in 1u64..50 {
        assert_eq!(find_choose_r(wide(row, row), row as u32), None);
    }
}

#[test]
fn the_solver_inverts_the_oracle_on_wide_values() {
    assert_eq!(find_choose_r(wide(350, 30), 30), Some(small(350)));
    assert_eq!(find_choose_r(wide(1000, 20), 20), Some(small(1000)));
    assert_eq!(find_choose_r(wide(1_000_000_000_000, 3), 3), Some(small(1_000_000_000_000)));
    let beside = wide(350, 30).limbs;
    let off_by_one = UInt { limbs: [beside[0] + 1, beside[1], beside[2], beside[3]] };
    assert_eq!(find_choose_r(off_by_one, 30), None);
}

#[test]
fn the_closed_form_agrees_with_the_solver() {
    for k in 2u64..6000 {
        assert_eq!(is_choose2(small(k)), find_choose_r(small(k), 2).is_some());
    }
    assert!(is_choose2(small(0)));
    assert!(is_choose2(small(1)));
    assert_eq!(find_choose_r(small(1), 2), None);
}

#[test]
fn values_beside_a_binomial_are_not_found() {
    for row in 6u64..40 {
        for column in 2..=row / 2 {
            let value = wide(row, column).to_u64().unwrap();
            assert_eq!(find_choose_r(small(value), column as u32), Some(small(row)));
            let next = wide(row + 1, column).to_u64().unwrap();
            if value + 1 < next {
                assert_eq!(find_choose_r(small(value + 1), column as u32), None);
            }
        }
    }
}
