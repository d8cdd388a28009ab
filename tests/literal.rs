use syntcalc::alias::AliasTable;
use syntcalc::literal::{Literal, LiteralError};

fn magnitude(lit: &Literal) -> f64 {
    let sign = if lit.negative { -1.0 } else { 1.0 };
    let base = lit.base as f64;
    let mut m = sign * lit.int_part as f64;
    m += sign * lit.fract_part as f64 / base.powi(lit.fract_len as i32);
    m * base.powi(lit.exponent)
}

#[test]
fn tokens_from_str() {
    let tests = [
        ("-0b11.11", -3.75, None),
        ("123.12E-1", 12.312, None),
        ("0o100E-2", 1.0, None),
        ("1.11E2kg", 111.0, Some("kg")),
    ];
    for (s, expected, unit) in tests {
        let lit = Literal::decode(s).unwrap();
        assert!((magnitude(&lit) - expected).abs() < 0.000001, "Initial string: {s}");
        assert_eq!(lit.unit.as_deref(), unit, "Initial string: {s}");
    }
}

#[test]
fn literal_parts_are_exact() {
    let lit = Literal::decode("-0b11.11").unwrap();
    assert!(lit.negative);
    assert_eq!((lit.base, lit.int_part, lit.fract_part, lit.fract_len, lit.exponent), (2, 3, 3, 2, 0));
    let lit = Literal::decode("1.11E2kg").unwrap();
    assert!(!lit.negative);
    assert_eq!((lit.base, lit.int_part, lit.fract_part, lit.fract_len, lit.exponent), (10, 1, 11, 2, 2));
    let lit = Literal::decode("0o100E-2").unwrap();
    assert_eq!((lit.base, lit.int_part, lit.fract_len, lit.exponent), (8, 64, 0, -2));
    assert_eq!(lit.unit, None);
}

#[test]
fn literal_with_unit_suffix() {
    let lit = Literal::decode("2km").unwrap();
    assert_eq!((lit.int_part, lit.exponent), (2, 0));
    assert_eq!(lit.unit.as_deref(), Some("km"));
}

#[test]
fn hex_prefix_weighs_fraction_and_exponent_in_base() {
    let lit = Literal::decode("0x1.8E1").unwrap();
    assert_eq!((lit.base, lit.int_part, lit.fract_part, lit.fract_len, lit.exponent), (16, 1, 8, 1, 1));
    assert_eq!(magnitude(&lit), 24.0);
}

#[test]
fn prefix_without_digits_is_a_zero_with_a_unit() {
    let lit = Literal::decode("0x").unwrap();
    assert_eq!((lit.base, lit.int_part), (10, 0));
    assert_eq!(lit.unit.as_deref(), Some("x"));
    let lit = Literal::decode("0xff").unwrap();
    assert_eq!((lit.base, lit.int_part), (10, 0));
    assert_eq!(lit.unit.as_deref(), Some("xff"));
}

#[test]
fn incomplete_parts_are_left_out() {
    let lit = Literal::decode("1E").unwrap();
    assert_eq!((lit.int_part, lit.exponent), (1, 0));
    assert_eq!(lit.unit.as_deref(), Some("E"));
    let lit = Literal::decode("1.e5").unwrap();
    assert_eq!((lit.int_part, lit.fract_len, lit.exponent), (1, 0, 0));
    assert_eq!(lit.unit, None);
    let lit = Literal::decode("7e-3s").unwrap();
    assert_eq!((lit.int_part, lit.exponent), (7, -3));
    assert_eq!(lit.unit.as_deref(), Some("s"));
}

#[test]
fn text_without_number_is_rejected() {
    assert_eq!(Literal::decode("kg").unwrap_err(), LiteralError::Malformed);
    assert_eq!(Literal::decode("-").unwrap_err(), LiteralError::Malformed);
    assert_eq!(Literal::decode("").unwrap_err(), LiteralError::Malformed);
    assert_eq!(Literal::decode("-kg").unwrap_err(), LiteralError::Malformed);
    assert_eq!(LiteralError::Malformed.describe(), "No number found in the string");
}

#[test]
fn oversized_parts_are_rejected() {
    assert_eq!(Literal::decode("18446744073709551616").unwrap_err(), LiteralError::TooLarge);
    assert_eq!(Literal::decode("1E2147483648").unwrap_err(), LiteralError::TooLarge);
    let lit = Literal::decode("18446744073709551615").unwrap();
    assert_eq!(lit.int_part, u64::MAX);
    let lit = Literal::decode("1E-2147483647").unwrap();
    assert_eq!(lit.exponent, -2147483647);
    let lit = Literal::decode("0000000000000000000000001").unwrap();
    assert_eq!(lit.int_part, 1);
}

#[test]
fn unit_name_is_looked_up() {
    let mut table: AliasTable<f64> = AliasTable::new();
    table.insert("kg".to_string(), 1.0);
    table.insert("km".to_string(), 1000.0);
    let lit = Literal::decode("2km").unwrap();
    assert_eq!(lit.unit_value(&table), Ok(Some(&1000.0)));
    let lit = Literal::decode("2").unwrap();
    assert_eq!(lit.unit_value(&table), Ok(None));
    let lit = Literal::decode("2parsec").unwrap();
    assert_eq!(lit.unit_value(&table), Err("No parsec found".to_string()));
}
