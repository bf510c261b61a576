use datafusion_types::{TypeName, TypeParameter};
use std::collections::hash_map::DefaultHasher;
use std::hash::{Hash, Hasher};
use std::sync::Arc;

fn type_parameter(name: TypeName) -> TypeParameter {
    TypeParameter::Type(Arc::new(name))
}

fn numeric_parameter(value: i128) -> TypeParameter {
    TypeParameter::Number(value)
}

fn hash_of(name: &TypeName) -> u64 {
    let mut hasher = DefaultHasher::new();
    name.hash(&mut hasher);
    hasher.finish()
}

#[test]
fn to_string() {
    assert_eq!(TypeName::from_basename("bool").to_string(), "bool");
    assert_eq!(TypeName::from_basename("unknown").to_string(), "unknown");
    assert_eq!(
        TypeName::new("array", vec![type_parameter(TypeName::from_basename("bool"))]).to_string(),
        "array(bool)"
    );

    assert_eq!(
        TypeName::new("decimal", vec![numeric_parameter(38), numeric_parameter(10)]).to_string(),
        "decimal(38, 10)"
    );
}

#[test]
fn nested_and_negative_parameters() {
    let inner = TypeName::new("array", vec![type_parameter(TypeName::from_basename("int32"))]);
    let name = TypeName::new(
        "map",
        vec![type_parameter(TypeName::from_basename("utf8")), type_parameter(inner)],
    );
    assert_eq!(name.to_string(), "map(utf8, array(int32))");
    assert_eq!(name.name(), "map(utf8, array(int32))");
    assert_eq!(
        TypeName::new("t", vec![numeric_parameter(-7), numeric_parameter(0)]).to_string(),
        "t(-7, 0)"
    );
    assert_eq!(
        TypeName::new("t", vec![numeric_parameter(i128::MIN)]).to_string(),
        "t(-170141183460469231731687303715884105728)"
    );
    assert_eq!(
        TypeName::new("t", vec![numeric_parameter(i128::MAX)]).to_string(),
        "t(170141183460469231731687303715884105727)"
    );
}

#[test]
fn accessors() {
    let name = TypeName::new("decimal", vec![numeric_parameter(38), numeric_parameter(10)]);
    assert_eq!(name.basename(), "decimal");
    assert_eq!(name.parameters().len(), 2);
    assert!(name.parameters()[0] == numeric_parameter(38));
    assert!(name.parameters()[1] == numeric_parameter(10));
    assert!(TypeName::from_basename("bool").parameters().is_empty());
    assert!(name.has_basename("decimal"));
    assert!(!name.has_basename("decimal(38, 10)"));
}

#[test]
fn structural_equality() {
    let a = TypeName::new(
        "map",
        vec![
            type_parameter(TypeName::from_basename("int32")),
            type_parameter(TypeName::new("array", vec![type_parameter(TypeName::from_basename("boolean"))])),
        ],
    );
    let value = TypeName::new("array", vec![type_parameter(TypeName::from_basename("boolean"))]);
    let key = TypeName::from_basename("int32");
    let b = TypeName::new("map", vec![type_parameter(key), type_parameter(value)]);
    assert!(a == b);
    assert_eq!(hash_of(&a), hash_of(&b));
    assert_eq!(a.to_string(), b.to_string());

    let c = TypeName::new("map", vec![type_parameter(TypeName::from_basename("int32"))]);
    assert!(a != c);
    assert!(TypeName::from_basename("int32") != TypeName::from_basename("int64"));
    assert!(numeric_parameter(1) != type_parameter(TypeName::from_basename("int32")));
    assert!(
        TypeName::new("decimal", vec![numeric_parameter(38), numeric_parameter(10)])
            != TypeName::new("decimal", vec![numeric_parameter(38), numeric_parameter(11)])
    );
}
