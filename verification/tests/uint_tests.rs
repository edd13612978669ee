use pascal::uint::UInt;

#[test]
fn from_u64_fills_the_low_limb() {
    assert_eq!(UInt::from_u64(0).limbs, [0, 0, 0, 0]);
    assert_eq!(UInt::from_u64(u64::MAX).limbs, [u64::MAX, 0, 0, 0]);
}

#[test]
fn max_value_is_all_ones() {
    assert_eq!(UInt::max_value().limbs, [u64::MAX; 4]);
}

#[test]
fn low_word_is_the_first_limb() {
    let x = UInt { limbs: [7, 8, 9, 10] };
    assert_eq!(x.low_word(), 7);
    assert_eq!(UInt::from_u64(12345).low_word(), 12345);
}

#[test]
fn to_u64_only_for_small_values() {
    assert_eq!(UInt::from_u64(99).to_u64(), Some(99));
    assert_eq!(UInt { limbs: [0, 1, 0, 0] }.to_u64(), None);
    assert_eq!(UInt { limbs: [5, 0, 0, 1] }.to_u64(), None);
}

#[test]
fn comparison_goes_by_the_high_limbs_first() {
    let small = UInt { limbs: [u64::MAX, u64::MAX, 0, 0] };
    let large = UInt { limbs: [0, 0, 1, 0] };
    assert!(small.is_less(&large));
    assert!(!large.is_less(&small));
    assert!(large.is_greater(&small));
    assert!(!small.is_greater(&large));
    assert!(!small.is_less(&small));
    assert!(!small.is_greater(&small));
    assert!(UInt::from_u64(3).is_less(&UInt::from_u64(4)));
}

#[test]
fn equality_is_limb_by_limb() {
    let a = UInt { limbs: [1, 2, 3, 4] };
    let b = UInt { limbs: [1, 2, 3, 4] };
    let c = UInt { limbs: [1, 2, 3, 5] };
    assert!(a.is_equal(&b));
    assert!(!a.is_equal(&c));
}

#[test]
fn zero_test() {
    assert!(UInt::from_u64(0).is_zero());
    assert!(!UInt::from_u64(1).is_zero());
    assert!(!UInt { limbs: [0, 0, 0, 1] }.is_zero());
}
