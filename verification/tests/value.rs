use fgscsv::dsl::FieldType;
use fgscsv::text::decimal_string;
use fgscsv::value::{is_float_literal, parse_u32, FieldValue};

#[test]
fn float_literals_match_std() {
    let cases = [
        "1", "1.", ".5", "1.5e3", "1E-3", "+2", "-0.0", "inf", "-Infinity", "NaN", "nan", "",
        ".", "e5", "1e", "1e+", "1.2.3", " 1", "1 ", "0x10", "infinit", "+-1", "1_000", "5e5e5",
        "1.e5", ".e5",
    ];
    for c in cases {
        assert_eq!(is_float_literal(c), c.parse::<f64>().is_ok(), "{c:?}");
    }
}

#[test]
fn u32_parsing_matches_std() {
    let cases = [
        "0", "007", "+5", "-5", "+", "-", "", "4294967295", "4294967296", "99999999999x",
        "12a", "a12", "١٢", " 1",
    ];
    for c in cases {
        let ours = parse_u32(c).map_err(|e| e.message());
        let std = c.parse::<u32>().map_err(|e| e.to_string());
        assert_eq!(ours, std, "{c:?}");
    }
}

#[test]
fn bool_and_float_errors() {
    assert_eq!(
        FieldType::Bool.parse("yes").unwrap_err().message(),
        "invalid bool value yes"
    );
    assert_eq!(FieldType::Bool.parse("FALSE").unwrap(), FieldValue::Bool(false));
    assert_eq!(
        FieldType::Float.parse("").unwrap_err().message(),
        "cannot parse float from empty string"
    );
    assert_eq!(FieldType::Float.parse("x").unwrap_err().message(), "invalid float literal");
    assert_eq!(
        FieldType::Int.parse("").unwrap_err().message(),
        "cannot parse integer from empty string"
    );
    assert_eq!(FieldType::String.parse("").unwrap(), FieldValue::String(String::new()));
}

#[test]
fn decimal_text_reads_back() {
    for n in [0u32, 9, 10, 42, 1000, u32::MAX] {
        let text = decimal_string(n as u64);
        assert_eq!(text, n.to_string());
        assert_eq!(parse_u32(&text).unwrap(), n);
    }
}
