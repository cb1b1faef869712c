use qtx_float::{FixedTextStep, Float};

/// Reads a binary floating-point number the way the library's callers do:
/// print it with sixteen places, then follow the step the library decides.
fn float_from_f64(f: f64) -> Option<Float> {
    if f.is_nan() || f.is_infinite() {
        return None;
    }
    let fixed = format!("{:.16}", f);
    match Float::from_f64_text(&fixed) {
        FixedTextStep::Read(r) => r,
        FixedTextStep::Reprint { precision } => {
            Float::from_rounded_text(&format!("{:.*}", precision, f))
        }
        FixedTextStep::Scientific => Float::from_scientific_text(&format!("{:.14}", f)),
    }
}

#[test]
fn test_float_macro() {
    // 1. a string literal
    let from_str = Float::from_str("45.678").unwrap();
    assert_eq!(from_str, Float::new(45678, 3));

    // 2. a String variable
    let s_var = String::from("10.00");
    assert_eq!(Float::from_str(&s_var).unwrap(), Float::new(1000, 2));

    // 3. a noisy f64
    let from_f64 = float_from_f64(0.1 + 0.2).unwrap();
    assert_eq!(from_f64, Float::new(3, 1));

    // 4. an f32
    let from_f32 = float_from_f64(1.25f32 as f64).unwrap();
    assert_eq!(from_f32, Float::new(125, 2));

    // 5. an integer literal
    let from_int = Float::from_i32(500);
    assert_eq!(from_int, Float::new(500, 0));

    // 6. integer variables of several widths
    let v_u8: u8 = 8;
    let v_i128: i32 = -100;
    assert_eq!(Float::from_u8(v_u8), Float::new(8, 0));
    assert_eq!(Float::from_i32(v_i128), Float::new(-100, 0));

    // 7. value and scale given apart
    assert_eq!(Float::new(123 as i64, 4 as i8), Float::new(123, 4));
}

#[test]
fn test_serialize_and_deserialize() {
    // Serialising: the numbers go out as decimal text.
    let price = Float::from_str("1500.50").unwrap();
    let quantity = Float::from_str("5000").unwrap();
    let mut order = serde_json::Map::new();
    order.insert("id".to_string(), serde_json::Value::from(8888u64));
    order.insert("price".to_string(), serde_json::Value::String(price.to_decimal_string()));
    order.insert("quantity".to_string(), serde_json::Value::String(quantity.to_decimal_string()));
    let json_output = serde_json::to_string(&serde_json::Value::Object(order)).unwrap();
    assert_eq!(json_output, r#"{"id":8888,"price":"1500.50","quantity":"5000"}"#);

    // Deserialising: a string is read as text, any number as an f64.
    fn field(v: &serde_json::Value, name: &str) -> Float {
        match &v[name] {
            serde_json::Value::String(s) => Float::from_str(s).unwrap(),
            serde_json::Value::Number(n) => match n.as_f64() {
                Some(f) => float_from_f64(f).unwrap(),
                None => Float::from_i64(n.as_i64().unwrap()),
            },
            _ => panic!("not a number"),
        }
    }
    let incoming_json = r#"{"id":8888,"price":"1500.50","quantity":5000}"#;
    let decoded: serde_json::Value = serde_json::from_str(incoming_json).unwrap();
    assert_eq!(field(&decoded, "price"), Float::new(150050, 2));
    assert_eq!(field(&decoded, "quantity"), Float::new(5000, 0));

    // Floating-point noise is cut off.
    let noise_json = r#"{"id":9999,"price":0.30000000000000004,"quantity":"1"}"#;
    let decoded_noise: serde_json::Value = serde_json::from_str(noise_json).unwrap();
    assert_eq!(field(&decoded_noise, "price"), Float::new(3, 1));
}

#[test]
fn f64_text_steps() {
    assert_eq!(
        Float::from_f64_text("0.3000000000000000"),
        FixedTextStep::Read(Some(Float::new(3, 1)))
    );
    assert_eq!(
        Float::from_f64_text("5000.0000000000000000"),
        FixedTextStep::Read(Some(Float::new(5000, 0)))
    );
    assert_eq!(
        Float::from_f64_text("0.1299999999999999"),
        FixedTextStep::Reprint { precision: 2 }
    );
    assert_eq!(
        Float::from_f64_text("1.2345678912345678"),
        FixedTextStep::Read(Some(Float::new(12345678912345678, 16)))
    );
    assert_eq!(Float::from_f64_text("1e5"), FixedTextStep::Scientific);
    assert_eq!(
        Float::from_f64_text("123456789012345678901234567890.0000000000000000"),
        FixedTextStep::Read(None)
    );
    assert_eq!(Float::from_rounded_text("0.13"), Some(Float::new(13, 2)));
    assert_eq!(Float::from_scientific_text("1.50000000000000"), Some(Float::new(15, 1)));
    assert_eq!(Float::from_scientific_text("100.00000000000000"), Some(Float::new(100, 0)));
    assert_eq!(float_from_f64(0.13).unwrap(), Float::new(13, 2));
    assert_eq!(float_from_f64(-2.5).unwrap(), Float::new(-25, 1));
    assert_eq!(float_from_f64(f64::NAN), None);
}
