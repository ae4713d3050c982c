use ethbridge::u256::{wide_le, wide_lt, U256};

#[test]
fn from_u64_and_order() {
    let a = U256::from_u64(5);
    let b = U256::from_u64(9);
    assert!(a.lt(&b));
    assert!(!b.lt(&a));
    assert!(!a.lt(&a));
    assert!(a.same(&a));
    assert!(!a.same(&b));
    let high = U256 { l0: 0, l1: 0, l2: 0, l3: 1 };
    assert!(b.lt(&high));
    assert!(!high.lt(&b));
}

#[test]
fn addition_carries_and_overflows() {
    let max_low = U256 { l0: u64::MAX, l1: 0, l2: 0, l3: 0 };
    let one = U256::from_u64(1);
    let sum = max_low.checked_add(&one).unwrap();
    assert_eq!(sum, U256 { l0: 0, l1: 1, l2: 0, l3: 0 });
    let all_max = U256 { l0: u64::MAX, l1: u64::MAX, l2: u64::MAX, l3: u64::MAX };
    assert_eq!(all_max.checked_add(&one), None);
    assert_eq!(all_max.checked_add(&U256::from_u64(0)).unwrap(), all_max);
}

#[test]
fn parity() {
    assert!(U256::from_u64(0).is_even());
    assert!(!U256::from_u64(7).is_even());
    assert!(U256 { l0: 2, l1: 1, l2: 9, l3: 3 }.is_even());
}

#[test]
fn widened_products_compare_exactly() {
    // 10000 * 1024 + 1024 <= 10000 * 1025 holds: the gas-limit window accepts
    // an unchanged limit.
    let gl = U256::from_u64(10000);
    let a = gl.mul_add_u64(1024, 1024);
    let b = gl.mul_add_u64(1025, 0);
    assert!(wide_le(&a, &b));
    // 10010 * 1024 + 1024 > 10000 * 1025: a limit just past the window is
    // refused.
    let too_big = U256::from_u64(10010).mul_add_u64(1024, 1024);
    assert!(!wide_le(&too_big, &b));
    // The lower bound: 10000 * 1023 < 9991 * 1024.
    let low = U256::from_u64(9991).mul_add_u64(1024, 0);
    let floor = gl.mul_add_u64(1023, 0);
    assert!(wide_lt(&floor, &low));
    let at_floor = U256::from_u64(9990).mul_add_u64(1024, 0);
    assert!(!wide_lt(&floor, &at_floor));
}
