use prime_field::arith::xgcd;

#[test]
fn test_xgcd() {
    assert_eq!(xgcd(8, 12), (4, -1, 1));
    assert_eq!(xgcd(36163, 21199), (1247, -7, 12));
}

#[test]
fn xgcd_zero_inputs() {
    assert_eq!(xgcd(0, 0), (0, 1, 0));
    assert_eq!(xgcd(7, 0), (7, 1, 0));
    assert_eq!(xgcd(0, 7), (7, 0, 1));
}

#[test]
fn xgcd_negative_inputs() {
    assert_eq!(xgcd(-8, 12), (4, 1, 1));
    assert_eq!(xgcd(8, -12), (4, -1, -1));
    assert_eq!(xgcd(-8, -12), (4, 1, -1));
}

#[test]
fn xgcd_bezout_identity() {
    let pairs: [(i64, i64); 8] = [
        (8, 12),
        (12, 8),
        (36163, 21199),
        (1, 1),
        (17, 5),
        (-35, 21),
        (270497, -119),
        (9223372036854775807, 6),
    ];
    for (a, b) in pairs {
        let (d, x, y) = xgcd(a, b);
        assert_eq!(a * x + b * y, d);
        assert!(d >= 0);
    }
}

#[test]
fn xgcd_divides_both_inputs() {
    let pairs: [(i64, i64); 5] = [(8, 12), (36163, 21199), (100, 75), (-48, 18), (13, 13)];
    for (a, b) in pairs {
        let (d, _, _) = xgcd(a, b);
        assert!(d > 0);
        assert_eq!(a % d, 0);
        assert_eq!(b % d, 0);
    }
}
