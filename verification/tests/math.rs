use rotations_rs::math::isqrt_u128;

#[test]
fn isqrt_small_values() {
    assert_eq!(isqrt_u128(0), 0);
    assert_eq!(isqrt_u128(1), 1);
    assert_eq!(isqrt_u128(3), 1);
    assert_eq!(isqrt_u128(4), 2);
    assert_eq!(isqrt_u128(99), 9);
    assert_eq!(isqrt_u128(100), 10);
    assert_eq!(isqrt_u128(20000), 141);
}

#[test]
fn isqrt_large_values() {
    assert_eq!(isqrt_u128(1_000_000_000_000_000_000), 1_000_000_000);
    assert_eq!(isqrt_u128(u128::MAX), u64::MAX as u128);
    let n: u128 = 0xffff_ffff_ffff_ffff;
    assert_eq!(isqrt_u128(n * n), n);
    assert_eq!(isqrt_u128(n * n - 1), n - 1);
}
