use qtx_float::Float;

#[test]
fn readme_parsing() {
    let f1 = Float::from_str("123.456").unwrap();
    assert_eq!(f1.value, 123456);
    assert_eq!(f1.scale, 3);
    assert_eq!(Float::from_str("1230000").unwrap(), Float::new(1230000, 0));
    assert_eq!(Float::from_str("123.000").unwrap(), Float::new(123000, 3));
}

#[test]
fn readme_compound_assignment_and_division() {
    let mut price = Float::from_str("1500.50").unwrap();
    let tick_size = Float::from_str("0.25").unwrap();
    price.add_assign(tick_size);
    assert_eq!(price, Float::new(150075, 2));
    assert_eq!(price, Float::from_str("1500.75").unwrap());

    let a = Float::new(200, 2);
    let b = Float::new(3, 0);
    assert_eq!(a / b, Float::new(67, 2));
}

#[test]
fn readme_conversions() {
    let f = Float::new(12345, 2);
    assert_eq!(f.to_i64(), 123);
    assert_eq!(f.to_i32(), Some(123));
}

#[test]
fn addition_aligns_scales() {
    assert_eq!(Float::new(15, 1) + Float::new(25, 3), Float::new(1525, 3));
    assert_eq!(Float::new(25, 3) + Float::new(15, 1), Float::new(1525, 3));
    assert_eq!(Float::new(5, -2) + Float::new(1, 0), Float::new(501, 0));
    assert_eq!(Float::new(1, 0) - Float::new(25, 2), Float::new(75, 2));
    let sum = Float::new(15, 1) + Float::new(25, 3);
    assert_eq!(sum - Float::new(25, 3), Float::new(1500, 3));
}

#[test]
fn addition_groups_either_way() {
    let a = Float::new(15, 1);
    let b = Float::new(-25, 3);
    let c = Float::new(7, 0);
    assert_eq!((a + b) + c, a + (b + c));
    assert_eq!((a + b) + c, Float::new(8475, 3));
}

#[test]
fn multiplication_adds_scales() {
    assert_eq!(Float::new(15, 1) * Float::new(2, 0), Float::new(30, 1));
    assert_eq!(Float::new(15, 1) * Float::new(-25, 2), Float::new(-375, 3));
    assert_eq!(Float::new(3, 1) * Float::new(7, 2), Float::new(7, 2) * Float::new(3, 1));
}

#[test]
fn division_rounds_half_away_from_zero() {
    assert_eq!(Float::new(-200, 2) / Float::new(3, 0), Float::new(-67, 2));
    assert_eq!(Float::new(1, 0) / Float::new(2, 0), Float::new(1, 0));
    assert_eq!(Float::new(-1, 0) / Float::new(2, 0), Float::new(-1, 0));
    assert_eq!(Float::new(1, 0) / Float::new(3, 0), Float::new(0, 0));
    assert_eq!(Float::new(1, 0) / Float::new(-4, 1), Float::new(-25, 1));
    assert_eq!(Float::new(10, 0) / Float::new(4, 0), Float::new(3, 0));
    assert_eq!(Float::new(100, 2) / Float::new(8, 0), Float::new(13, 2));
}

#[test]
fn remainder_follows_the_dividend() {
    assert_eq!(Float::new(1050, 2) % Float::new(300, 2), Float::new(150, 2));
    assert_eq!(Float::new(-7, 0) % Float::new(2, 0), Float::new(-1, 0));
    assert_eq!(Float::new(7, 0) % Float::new(-2, 0), Float::new(1, 0));
    assert_eq!(Float::new(55, 1) % Float::new(2, 0), Float::new(15, 1));
}

#[test]
fn assignment_operators() {
    let mut x = Float::new(10, 0);
    x.sub_assign(Float::new(25, 1));
    assert_eq!(x, Float::new(75, 1));
    x.mul_assign(Float::new(2, 0));
    assert_eq!(x, Float::new(150, 1));
    x.div_assign(Float::new(4, 0));
    assert_eq!(x, Float::new(38, 1));
    x.rem_assign(Float::new(1, 0));
    assert_eq!(x, Float::new(8, 1));
}

#[test]
fn whole_parts_cut_toward_zero() {
    assert_eq!(Float::new(-12345, 2).to_i64(), -123);
    assert_eq!(Float::new(99, 2).to_i64(), 0);
    assert_eq!(Float::new(7, -3).to_i64(), 7);
    assert_eq!(Float::new(-5, 1).to_u64(), None);
    assert_eq!(Float::new(15, 1).to_u64(), Some(1));
    assert_eq!(Float::new(-15, 1).to_u64(), None);
    assert_eq!(Float::new(3_000_000_000, 0).to_i32(), None);
    assert_eq!(Float::new(3_000_000_000, 0).to_u32(), Some(3_000_000_000));
    assert_eq!(Float::new(5_000_000_000, 0).to_u32(), None);
    assert_eq!(Float::new(-1, 0).to_u32(), None);
    assert_eq!(Float::new(4200, 2).to_usize(), Some(42));
    assert_eq!(Float::new(1, 19).to_i64(), 0);
    assert_eq!(Float::new(-i64::MAX, 30).to_i64(), 0);
    assert_eq!(Float::new(5, 25).to_u64(), Some(0));
    assert_eq!(Float::new(-5, 25).to_u64(), None);
    assert_eq!(Float::new(5, 25).to_i32(), Some(0));
    assert_eq!(Float::new(5, 25).to_u32(), Some(0));
    assert_eq!(Float::new(5, 25).to_usize(), Some(0));
    assert_eq!(Float::new(-4200, 2).to_usize(), None);
}

#[test]
fn scale_helpers() {
    assert_eq!(Float::scale_up(15, 1, 3), 1500);
    assert_eq!(Float::scale_up(15, 3, 1), 15);
    assert_eq!(Float::get_scale_factor(4), 10_000);
    assert_eq!(Float::get_scale_factor(-2), 1);
    assert_eq!(Float::get_scale_factor(0), 1);
}

#[test]
fn constructors() {
    assert_eq!(Float::from_i64(-9), Float::new(-9, 0));
    assert_eq!(Float::from_i8(-9), Float::new(-9, 0));
    assert_eq!(Float::from_u32(9), Float::new(9, 0));
    assert_eq!(Float::from_u64(u64::MAX), None);
    assert_eq!(Float::from_u64(9), Some(Float::new(9, 0)));
    assert_eq!(Float::from_usize(usize::MAX), None);
    assert_eq!(Float::from_usize(9), Some(Float::new(9, 0)));
    assert_eq!(Float::from(7i64), Float::new(7, 0));
    assert_eq!(Float::from(-7i32), Float::new(-7, 0));
    assert_eq!(Float::from(7i8), Float::new(7, 0));
    assert_eq!(Float::from(7u32), Float::new(7, 0));
    assert_eq!(Float::from(7u8), Float::new(7, 0));
    assert_eq!(Float::try_from(7u64), Ok(Float::new(7, 0)));
    assert_eq!(Float::try_from(u64::MAX), Err("u64 value overflows i64"));
    assert_eq!(Float::try_from(7usize), Ok(Float::new(7, 0)));
    assert_eq!(Float::try_from(usize::MAX), Err("usize value overflows i64"));
}
