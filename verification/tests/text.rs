use memapi::text::to_decimal;

#[test]
fn decimal_of_single_digits() {
    assert_eq!(to_decimal(0), "0");
    assert_eq!(to_decimal(7), "7");
    assert_eq!(to_decimal(9), "9");
}

#[test]
fn decimal_has_no_leading_zeros() {
    assert_eq!(to_decimal(10), "10");
    assert_eq!(to_decimal(100), "100");
    assert_eq!(to_decimal(1005), "1005");
    assert_eq!(to_decimal(51000), "51000");
}

#[test]
fn decimal_is_what_formatting_gives() {
    let mut value: usize = 1;
    for _ in 0..200 {
        assert_eq!(to_decimal(value), format!("{}", value));
        value = value.wrapping_mul(2862933555777941757).wrapping_add(3037000493);
    }
    assert_eq!(to_decimal(usize::MAX), format!("{}", usize::MAX));
}
