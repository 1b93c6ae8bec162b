use adas_pilot::geometry::div_i64;

#[test]
fn division_truncates_toward_zero() {
    assert_eq!(div_i64(7, 2), 3);
    assert_eq!(div_i64(-7, 2), -3);
    assert_eq!(div_i64(7, -2), -3);
    assert_eq!(div_i64(-7, -2), 3);
    assert_eq!(div_i64(12000, 360), 33);
    assert_eq!(div_i64(-12000, -360), 33);
    assert_eq!(div_i64(0, 5), 0);
}
