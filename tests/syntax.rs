use datafusion_types::{TypeError, TypeName, TypeParameter, is_valid_basename};
use std::sync::Arc;

fn nested(name: TypeName) -> TypeParameter {
    TypeParameter::Type(Arc::new(name))
}

fn malformed(text: &str) -> TypeError {
    TypeError::MalformedTypeSyntax(text.to_string())
}

#[test]
fn parse_round_trip() {
    let names = vec![
        TypeName::from_basename("bool"),
        TypeName::new("array", vec![nested(TypeName::from_basename("bool"))]),
        TypeName::new("decimal", vec![TypeParameter::Number(38), TypeParameter::Number(10)]),
        TypeName::new(
            "map",
            vec![
                nested(TypeName::from_basename("int32")),
                nested(TypeName::new("array", vec![nested(TypeName::from_basename("utf8"))])),
            ],
        ),
        TypeName::new("t_1", vec![TypeParameter::Number(-5), TypeParameter::Number(0)]),
        TypeName::new("big", vec![TypeParameter::Number(i128::MIN), TypeParameter::Number(i128::MAX)]),
        TypeName::from_basename("9lives"),
        TypeName::new("caf\u{e9}-1.x", vec![nested(TypeName::from_basename("x-y"))]),
    ];
    for name in names {
        let text = name.to_string();
        let parsed = TypeName::parse(&text).unwrap();
        assert!(parsed == name);
        assert_eq!(parsed.to_string(), text);
    }
}

#[test]
fn parse_structure() {
    let parsed = TypeName::parse("decimal(38, 10)").unwrap();
    assert_eq!(parsed.basename(), "decimal");
    assert!(parsed.parameters()[0] == TypeParameter::Number(38));
    assert!(parsed.parameters()[1] == TypeParameter::Number(10));

    let parsed: TypeName = "array(bool)".parse().unwrap();
    match &parsed.parameters()[0] {
        TypeParameter::Type(inner) => assert_eq!(inner.basename(), "bool"),
        TypeParameter::Number(_) => panic!("expected a nested name"),
    }
}

#[test]
fn parse_rejects_malformed_text() {
    for text in [
        "",
        "array(",
        "array()",
        "array(bool",
        "array(bool))",
        "(bool)",
        "a(b,c)",
        "a(b,  c)",
        "a (b)",
        "a(1abc)",
        "a(-x)",
        "a(01)",
        "a(-0)",
        "a(-)",
        "a(--1)",
        "a(1x)",
        "a(170141183460469231731687303715884105728)",
        "a(-170141183460469231731687303715884105729)",
        "a,b",
        "a)",
        "a(b)c",
        " a",
    ] {
        assert_eq!(TypeName::parse(text).unwrap_err(), malformed(text));
    }
}

#[test]
fn parse_number_limits() {
    let low = TypeName::parse("a(-170141183460469231731687303715884105728)").unwrap();
    assert!(low.parameters()[0] == TypeParameter::Number(i128::MIN));
    let high = TypeName::parse("a(170141183460469231731687303715884105727)").unwrap();
    assert!(high.parameters()[0] == TypeParameter::Number(i128::MAX));
    let zero = TypeName::parse("a(0, -1)").unwrap();
    assert!(zero.parameters()[0] == TypeParameter::Number(0));
    assert!(zero.parameters()[1] == TypeParameter::Number(-1));
}

#[test]
fn basename_validity() {
    assert!(is_valid_basename("int32"));
    assert!(is_valid_basename("_x9"));
    assert!(is_valid_basename("9lives"));
    assert!(is_valid_basename("caf\u{e9}-1.x"));
    assert!(!is_valid_basename(""));
    assert!(!is_valid_basename("a b"));
    assert!(!is_valid_basename("a(b)"));
    assert!(!is_valid_basename("a, b"));
    assert!(TypeName::parse("map(int32, array(boolean))").unwrap().is_valid());
    assert!(!TypeName::from_basename("a(b)").is_valid());
    let hidden = TypeName::new("array", vec![nested(TypeName::from_basename("x y"))]);
    assert!(!hidden.is_valid());
    assert!(TypeName::parse(&hidden.to_string()).is_err());
    let numeric_nested = TypeName::new("array", vec![nested(TypeName::from_basename("5"))]);
    assert!(!numeric_nested.is_valid());
    let dash_nested = TypeName::new("array", vec![nested(TypeName::from_basename("-x"))]);
    assert!(!dash_nested.is_valid());
    let numbers = TypeName::new("decimal", vec![TypeParameter::Number(-1)]);
    assert!(numbers.is_valid());
}

#[test]
fn clone_keeps_structure() {
    let name = TypeName::new(
        "map",
        vec![nested(TypeName::from_basename("int32")), TypeParameter::Number(4)],
    );
    let copy = name.clone();
    assert!(copy == name);
    assert_eq!(copy.to_string(), "map(int32, 4)");
}
