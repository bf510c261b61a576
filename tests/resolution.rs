use datafusion_types::{
    BuiltinPrimitiveType, BuiltinTypeProvider, CatalogProvider, NamedTypeProvider, Type, TypeError, TypeManager,
    TypeName, TypeParameter, TypeProvider, same_type,
};
use std::sync::Arc;

type Manager = TypeManager<CatalogProvider<NamedTypeProvider>>;

fn nested(name: TypeName) -> TypeParameter {
    TypeParameter::Type(Arc::new(name))
}

fn builtin_manager() -> Manager {
    TypeManager::create_with_builtin_types()
}

#[test]
fn builtin_kinds() {
    let all = BuiltinPrimitiveType::all();
    assert_eq!(all.len(), 13);
    assert_eq!(all[0], BuiltinPrimitiveType::Unknown);
    assert_eq!(all[12], BuiltinPrimitiveType::Float64);
    assert_eq!(BuiltinPrimitiveType::Boolean.basename(), "boolean");
    assert_eq!(BuiltinPrimitiveType::Int32.basename(), "int32");
    assert_eq!(BuiltinPrimitiveType::UInt64.name().to_string(), "uint64");
}

#[test]
fn builtin_singleton_identity() {
    let manager = builtin_manager();
    let name = Arc::new(TypeName::from_basename("boolean"));
    let first = manager.resolve(&name).unwrap();
    let second = manager.resolve(&name).unwrap();
    assert!(Arc::ptr_eq(&first, &second));
    assert!(matches!(*first, Type::Primitive(BuiltinPrimitiveType::Boolean)));
    assert_eq!(first.name().to_string(), "boolean");
}

#[test]
fn composite_resolution() {
    let manager = builtin_manager();
    let boolean = manager.resolve(&Arc::new(TypeName::from_basename("boolean"))).unwrap();
    let int32 = manager.resolve(&Arc::new(TypeName::from_basename("int32"))).unwrap();

    let array = manager
        .resolve(&Arc::new(TypeName::new("array", vec![nested(TypeName::from_basename("boolean"))])))
        .unwrap();
    match &*array {
        Type::Array(a) => {
            assert!(Arc::ptr_eq(&a.element_type, &boolean));
            assert_eq!(a.name().to_string(), "array(boolean)");
        }
        _ => panic!("expected an array type"),
    }
    assert_eq!(array.name().to_string(), "array(boolean)");

    let map = manager
        .resolve(&Arc::new(TypeName::new(
            "map",
            vec![nested(TypeName::from_basename("int32")), nested(TypeName::from_basename("boolean"))],
        )))
        .unwrap();
    match &*map {
        Type::Mapping(m) => {
            assert!(Arc::ptr_eq(&m.key_type, &int32));
            assert!(Arc::ptr_eq(&m.value_type, &boolean));
            assert_eq!(m.name().to_string(), "map(int32, boolean)");
        }
        _ => panic!("expected a map type"),
    }
}

#[test]
fn deeply_nested_resolution() {
    let manager = builtin_manager();
    let name = TypeName::new(
        "map",
        vec![
            nested(TypeName::from_basename("uint8")),
            nested(TypeName::new("array", vec![nested(TypeName::from_basename("float64"))])),
        ],
    );
    let resolved = manager.resolve(&Arc::new(name)).unwrap();
    assert_eq!(resolved.name().to_string(), "map(uint8, array(float64))");
}

#[test]
fn unknown_basename() {
    let manager = builtin_manager();
    let err = manager.resolve(&Arc::new(TypeName::from_basename("decimal"))).unwrap_err();
    assert_eq!(err, TypeError::UnknownBasename("decimal".to_string()));

    let empty: Manager = TypeManager::new();
    let err = empty.resolve(&Arc::new(TypeName::from_basename("boolean"))).unwrap_err();
    assert_eq!(err, TypeError::UnknownBasename("boolean".to_string()));

    let err = manager
        .resolve(&Arc::new(TypeName::new("array", vec![nested(TypeName::from_basename("utf8"))])))
        .unwrap_err();
    assert_eq!(err, TypeError::UnknownBasename("utf8".to_string()));
}

#[test]
fn malformed_composite_shapes() {
    let manager = builtin_manager();
    let err = manager.resolve(&Arc::new(TypeName::from_basename("array"))).unwrap_err();
    assert_eq!(err, TypeError::ShapeMismatch("array".to_string()));

    let two = TypeName::new(
        "array",
        vec![nested(TypeName::from_basename("boolean")), nested(TypeName::from_basename("int8"))],
    );
    let err = manager.resolve(&Arc::new(two)).unwrap_err();
    assert_eq!(err, TypeError::ShapeMismatch("array(boolean, int8)".to_string()));

    let numeric = TypeName::new("array", vec![TypeParameter::Number(3)]);
    let err = manager.resolve(&Arc::new(numeric)).unwrap_err();
    assert_eq!(err, TypeError::ShapeMismatch("array(3)".to_string()));

    let map = TypeName::new("map", vec![nested(TypeName::from_basename("boolean"))]);
    let err = manager.resolve(&Arc::new(map)).unwrap_err();
    assert_eq!(err, TypeError::ShapeMismatch("map(boolean)".to_string()));

    let primitive = TypeName::new("boolean", vec![TypeParameter::Number(1)]);
    let err = manager.resolve(&Arc::new(primitive)).unwrap_err();
    assert_eq!(err, TypeError::ShapeMismatch("boolean(1)".to_string()));
}

#[test]
fn registration_exclusivity() {
    let provider = Arc::new(CatalogProvider::Builtin(BuiltinTypeProvider::new()));
    let mut manager: Manager = TypeManager::new();
    assert!(manager.register_provider("boolean", &provider).is_ok());
    assert_eq!(
        manager.register_provider("boolean", &provider),
        Err(TypeError::DuplicateProviderRegistration("boolean".to_string()))
    );
    assert!(manager.register_provider("array", &provider).is_ok());
    assert!(manager.resolve(&Arc::new(TypeName::from_basename("boolean"))).is_ok());

    let mut full = builtin_manager();
    assert_eq!(
        full.register_provider("map", &provider),
        Err(TypeError::DuplicateProviderRegistration("map".to_string()))
    );
    assert!(full.register_provider("decimal", &provider).is_ok());
}

#[test]
fn create_and_register_twice() {
    let mut manager: Manager = TypeManager::new();
    assert!(BuiltinTypeProvider::create_and_register(&mut manager).is_ok());
    assert_eq!(
        BuiltinTypeProvider::create_and_register(&mut manager),
        Err(TypeError::DuplicateProviderRegistration("unknown".to_string()))
    );
}

#[test]
fn common_super_type() {
    let manager = builtin_manager();
    let provider = BuiltinTypeProvider::new();
    let boolean = manager.resolve(&Arc::new(TypeName::from_basename("boolean"))).unwrap();
    let int32 = manager.resolve(&Arc::new(TypeName::from_basename("int32"))).unwrap();
    let array_name = Arc::new(TypeName::new("array", vec![nested(TypeName::from_basename("boolean"))]));
    let a1 = manager.resolve(&array_name).unwrap();
    let a2 = manager.resolve(&array_name).unwrap();
    assert!(!Arc::ptr_eq(&a1, &a2));
    assert!(same_type(&a1, &a2));
    let common = provider.common_super_type(&a1, &a2).unwrap().unwrap();
    assert_eq!(common.name().to_string(), "array(boolean)");
    assert!(provider.common_super_type(&boolean, &int32).unwrap().is_none());
    assert!(manager.common_super_type(&boolean, &boolean).unwrap().is_some());
    assert!(manager.common_super_type(&boolean, &int32).unwrap().is_none());

    let empty: Manager = TypeManager::new();
    assert_eq!(
        empty.common_super_type(&boolean, &int32).unwrap_err(),
        TypeError::UnknownBasename("boolean".to_string())
    );
}

#[test]
fn clash_keeps_earlier_registrations() {
    let mut manager: Manager = TypeManager::new();
    let user = Arc::new(CatalogProvider::User(NamedTypeProvider {}));
    assert!(manager.register_provider("int32", &user).is_ok());
    assert_eq!(
        BuiltinTypeProvider::create_and_register(&mut manager),
        Err(TypeError::DuplicateProviderRegistration("int32".to_string()))
    );
    assert!(manager.resolve(&Arc::new(TypeName::from_basename("boolean"))).is_ok());
    assert!(manager.resolve(&Arc::new(TypeName::from_basename("int8"))).is_ok());
    assert_eq!(
        manager.resolve(&Arc::new(TypeName::from_basename("int64"))).unwrap_err(),
        TypeError::UnknownBasename("int64".to_string())
    );
    let int32 = manager.resolve(&Arc::new(TypeName::from_basename("int32"))).unwrap();
    assert!(matches!(*int32, Type::Extension(_)));
}

#[test]
fn user_family_beside_builtins() {
    let mut manager = builtin_manager();
    let user = Arc::new(CatalogProvider::User(NamedTypeProvider {}));
    assert!(manager.register_provider("decimal", &user).is_ok());
    let name = TypeName::new("decimal", vec![TypeParameter::Number(38), TypeParameter::Number(10)]);
    let resolved = manager.resolve(&Arc::new(name)).unwrap();
    assert!(matches!(*resolved, Type::Extension(_)));
    assert_eq!(resolved.name().to_string(), "decimal(38, 10)");
    let array = TypeName::new(
        "array",
        vec![TypeParameter::Type(Arc::new(TypeName::new(
            "decimal",
            vec![TypeParameter::Number(9), TypeParameter::Number(2)],
        )))],
    );
    assert_eq!(manager.resolve(&Arc::new(array)).unwrap().name().to_string(), "array(decimal(9, 2))");
    let nested_type = TypeName::new("decimal", vec![TypeParameter::Type(Arc::new(TypeName::from_basename("int8")))]);
    assert_eq!(
        manager.resolve(&Arc::new(nested_type)).unwrap_err(),
        TypeError::ShapeMismatch("decimal(int8)".to_string())
    );
    let provider = NamedTypeProvider {};
    let boolean = manager.resolve(&Arc::new(TypeName::from_basename("boolean"))).unwrap();
    assert!(provider.common_super_type(&resolved, &resolved).unwrap().is_some());
    assert!(provider.common_super_type(&resolved, &boolean).unwrap().is_none());
}
