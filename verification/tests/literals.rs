use sbl::errors::LiteralError;
use sbl::numeric_literal::NumericLiteral;

#[test]
fn suffix_selects_the_kind() {
    assert_eq!(
        NumericLiteral::decode("10u8").unwrap(),
        NumericLiteral::Uint(8, 10)
    );
    assert_eq!(
        NumericLiteral::decode("-3i").unwrap(),
        NumericLiteral::SysInt(-3)
    );
    assert_eq!(
        NumericLiteral::decode("1.5f").unwrap(),
        NumericLiteral::Float(32, "1.5".to_string())
    );
    assert_eq!(
        NumericLiteral::decode("2E3i").unwrap(),
        NumericLiteral::SysInt(2000)
    );
}

#[test]
fn no_suffix_is_system_int() {
    assert_eq!(NumericLiteral::decode("42").unwrap(), NumericLiteral::SysInt(42));
}

#[test]
fn double_shorthand() {
    assert_eq!(
        NumericLiteral::decode("1.5d").unwrap(),
        NumericLiteral::Float(64, "1.5".to_string())
    );
}

#[test]
fn float_without_width_is_single_precision() {
    assert_eq!(
        NumericLiteral::decode("2.25f").unwrap(),
        NumericLiteral::Float(32, "2.25".to_string())
    );
    assert_eq!(
        NumericLiteral::decode("2.25f64").unwrap(),
        NumericLiteral::Float(64, "2.25".to_string())
    );
}

#[test]
fn booleans_compare_against_zero() {
    assert_eq!(NumericLiteral::decode("1b").unwrap(), NumericLiteral::Boolean(true));
    assert_eq!(NumericLiteral::decode("0b").unwrap(), NumericLiteral::Boolean(false));
    assert_eq!(NumericLiteral::decode("7b").unwrap(), NumericLiteral::Boolean(true));
}

#[test]
fn unsigned_kinds() {
    assert_eq!(NumericLiteral::decode("7u").unwrap(), NumericLiteral::SysUint(7));
    assert_eq!(NumericLiteral::decode("7i16").unwrap(), NumericLiteral::Int(16, 7));
    assert_eq!(
        NumericLiteral::decode("2E3u").unwrap(),
        NumericLiteral::SysUint(2000)
    );
}

#[test]
fn scientific_float_body_is_kept() {
    assert_eq!(
        NumericLiteral::decode("2.5E3f").unwrap(),
        NumericLiteral::Float(32, "2.5E3".to_string())
    );
}

#[test]
fn undecodable_body_is_fatal() {
    assert_eq!(
        NumericLiteral::decode("1.5i"),
        Err(LiteralError::InvalidBody)
    );
    assert_eq!(NumericLiteral::decode(""), Err(LiteralError::InvalidBody));
    assert_eq!(NumericLiteral::decode("--2"), Err(LiteralError::InvalidBody));
    assert_eq!(NumericLiteral::decode("."), Err(LiteralError::InvalidBody));
}

#[test]
fn negative_exponent_for_integer_kind_is_fatal() {
    assert_eq!(
        NumericLiteral::decode("2E-3u"),
        Err(LiteralError::InvalidExponent)
    );
    assert_eq!(
        NumericLiteral::decode("2E-3i"),
        Err(LiteralError::InvalidExponent)
    );
}

#[test]
fn bad_width_is_fatal() {
    assert_eq!(
        NumericLiteral::decode("1u999"),
        Err(LiteralError::InvalidWidth)
    );
    assert_eq!(
        NumericLiteral::decode("1u8u"),
        Err(LiteralError::InvalidWidth)
    );
}

#[test]
fn overflowing_value_is_fatal() {
    assert_eq!(
        NumericLiteral::decode("99999999999999999999u"),
        Err(LiteralError::InvalidBody)
    );
    assert_eq!(
        NumericLiteral::decode("5E30u"),
        Err(LiteralError::ValueOutOfRange)
    );
    assert_eq!(
        NumericLiteral::decode("5E30i"),
        Err(LiteralError::ValueOutOfRange)
    );
}

#[test]
fn render_produces_canonical_suffix_forms() {
    assert_eq!(NumericLiteral::Uint(8, 10).render(), "10u8");
    assert_eq!(NumericLiteral::SysInt(-3).render(), "-3i");
    assert_eq!(NumericLiteral::SysUint(7).render(), "7u");
    assert_eq!(NumericLiteral::Int(16, -20).render(), "-20i16");
    assert_eq!(NumericLiteral::Boolean(true).render(), "1b");
    assert_eq!(NumericLiteral::Boolean(false).render(), "0b");
    assert_eq!(
        NumericLiteral::Float(32, "1.5".to_string()).render(),
        "1.5f32"
    );
}

#[test]
fn decode_render_round_trip() {
    let values = vec![
        NumericLiteral::Uint(8, 10),
        NumericLiteral::SysInt(-3),
        NumericLiteral::SysInt(i64::MIN),
        NumericLiteral::SysInt(i64::MAX),
        NumericLiteral::SysUint(u64::MAX),
        NumericLiteral::Int(64, 0),
        NumericLiteral::Boolean(true),
        NumericLiteral::Boolean(false),
        NumericLiteral::Float(32, "1.5".to_string()),
        NumericLiteral::Float(64, "2.5E3".to_string()),
        NumericLiteral::Float(64, "-0.25E-2".to_string()),
    ];
    for v in values {
        assert_eq!(NumericLiteral::decode(&v.render()).unwrap(), v);
    }
}
