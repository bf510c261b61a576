//! Resolved types: the builtin primitive kinds, arrays and maps, and
//! types of externally registered families known by name.

use crate::naming::{NameModel, ParamModel, TypeName, TypeNameRef, TypeParameter, params_model};
use std::sync::Arc;
use vstd::prelude::*;

verus! {

/// The intrinsic scalar kinds.
#[derive(Debug, Clone, Copy, PartialEq, Eq, Structural, Hash)]
pub enum BuiltinPrimitiveType {
    /// The type of a bare NULL.
    Unknown,
    /// `true` and `false`.
    Boolean,
    /// A signed 8-bit integer.
    Int8,
    /// A signed 16-bit integer.
    Int16,
    /// A signed 32-bit integer.
    Int32,
    /// A signed 64-bit integer.
    Int64,
    /// An unsigned 8-bit integer.
    UInt8,
    /// An unsigned 16-bit integer.
    UInt16,
    /// An unsigned 32-bit integer.
    UInt32,
    /// An unsigned 64-bit integer.
    UInt64,
    /// A 16-bit floating point number.
    Float16,
    /// A 32-bit floating point number.
    Float32,
    /// A 64-bit floating point number.
    Float64,
}

/// Every builtin kind, in declaration order.
pub open spec fn all_kinds() -> Seq<BuiltinPrimitiveType> {
    seq![
        BuiltinPrimitiveType::Unknown,
        BuiltinPrimitiveType::Boolean,
        BuiltinPrimitiveType::Int8,
        BuiltinPrimitiveType::Int16,
        BuiltinPrimitiveType::Int32,
        BuiltinPrimitiveType::Int64,
        BuiltinPrimitiveType::UInt8,
        BuiltinPrimitiveType::UInt16,
        BuiltinPrimitiveType::UInt32,
        BuiltinPrimitiveType::UInt64,
        BuiltinPrimitiveType::Float16,
        BuiltinPrimitiveType::Float32,
        BuiltinPrimitiveType::Float64,
    ]
}

impl BuiltinPrimitiveType {
    /// The fixed basename of each kind.
    pub open spec fn basename_spec(self) -> Seq<char> {
        match self {
            BuiltinPrimitiveType::Unknown => "unknown"@,
            BuiltinPrimitiveType::Boolean => "boolean"@,
            BuiltinPrimitiveType::Int8 => "int8"@,
            BuiltinPrimitiveType::Int16 => "int16"@,
            BuiltinPrimitiveType::Int32 => "int32"@,
            BuiltinPrimitiveType::Int64 => "int64"@,
            BuiltinPrimitiveType::UInt8 => "uint8"@,
            BuiltinPrimitiveType::UInt16 => "uint16"@,
            BuiltinPrimitiveType::UInt32 => "uint32"@,
            BuiltinPrimitiveType::UInt64 => "uint64"@,
            BuiltinPrimitiveType::Float16 => "float16"@,
            BuiltinPrimitiveType::Float32 => "float32"@,
            BuiltinPrimitiveType::Float64 => "float64"@,
        }
    }

    /// The canonical name of each kind: its basename, without parameters.
    pub open spec fn name_model(self) -> NameModel {
        NameModel::Name { basename: self.basename_spec(), parameters: Seq::empty() }
    }

    pub fn basename(&self) -> (r: &'static str)
        ensures
            r@ == self.basename_spec(),
    {
        match self {
            BuiltinPrimitiveType::Unknown => "unknown",
            BuiltinPrimitiveType::Boolean => "boolean",
            BuiltinPrimitiveType::Int8 => "int8",
            BuiltinPrimitiveType::Int16 => "int16",
            BuiltinPrimitiveType::Int32 => "int32",
            BuiltinPrimitiveType::Int64 => "int64",
            BuiltinPrimitiveType::UInt8 => "uint8",
            BuiltinPrimitiveType::UInt16 => "uint16",
            BuiltinPrimitiveType::UInt32 => "uint32",
            BuiltinPrimitiveType::UInt64 => "uint64",
            BuiltinPrimitiveType::Float16 => "float16",
            BuiltinPrimitiveType::Float32 => "float32",
            BuiltinPrimitiveType::Float64 => "float64",
        }
    }

    /// Every builtin kind, each exactly once.
    pub fn all() -> (r: Vec<BuiltinPrimitiveType>)
        ensures
            r@ == all_kinds(),
    {
        let r = vec![
            BuiltinPrimitiveType::Unknown,
            BuiltinPrimitiveType::Boolean,
            BuiltinPrimitiveType::Int8,
            BuiltinPrimitiveType::Int16,
            BuiltinPrimitiveType::Int32,
            BuiltinPrimitiveType::Int64,
            BuiltinPrimitiveType::UInt8,
            BuiltinPrimitiveType::UInt16,
            BuiltinPrimitiveType::UInt32,
            BuiltinPrimitiveType::UInt64,
            BuiltinPrimitiveType::Float16,
            BuiltinPrimitiveType::Float32,
            BuiltinPrimitiveType::Float64,
        ];
        assert(r@ =~= all_kinds());
        r
    }

    /// The canonical name of this kind.
    pub fn name(&self) -> (r: TypeName)
        ensures
            r@ == self.name_model(),
    {
        TypeName::from_basename(self.basename())
    }
}

/// The structure of a resolved type, as a mathematical value.
pub enum TypeModel {
    Primitive(BuiltinPrimitiveType),
    Array(Box<TypeModel>),
    Mapping(Box<TypeModel>, Box<TypeModel>),
    Extension(NameModel),
}

pub open spec fn array_basename() -> Seq<char> {
    "array"@
}

pub open spec fn map_basename() -> Seq<char> {
    "map"@
}

/// The canonical name of a resolved type.
pub open spec fn model_name(m: TypeModel) -> NameModel
    decreases m,
{
    match m {
        TypeModel::Primitive(k) => k.name_model(),
        TypeModel::Array(e) => NameModel::Name {
            basename: array_basename(),
            parameters: seq![ParamModel::Type(model_name(*e))],
        },
        TypeModel::Mapping(k, v) => NameModel::Name {
            basename: map_basename(),
            parameters: seq![ParamModel::Type(model_name(*k)), ParamModel::Type(model_name(*v))],
        },
        TypeModel::Extension(n) => n,
    }
}

/// A resolved type: one of the intrinsic kinds, or a type of a family that
/// was registered from outside and is known only by its name.
#[derive(Debug)]
pub enum Type {
    Primitive(BuiltinPrimitiveType),
    Array(ArrayType),
    Mapping(MapType),
    Extension(TypeNameRef),
}

pub type TypeRef = Arc<Type>;

/// An array of elements of one type.
#[derive(Debug)]
pub struct ArrayType {
    pub element_type: TypeRef,
    canonical: TypeNameRef,
}

/// A map from keys of one type to values of another.
#[derive(Debug)]
pub struct MapType {
    pub key_type: TypeRef,
    pub value_type: TypeRef,
    canonical: TypeNameRef,
}

impl Type {
    /// The structure of this type.
    pub closed spec fn model(self) -> TypeModel
        decreases self,
    {
        match self {
            Type::Primitive(k) => TypeModel::Primitive(k),
            Type::Array(a) => TypeModel::Array(Box::new(a.element_type.model())),
            Type::Mapping(m) => TypeModel::Mapping(Box::new(m.key_type.model()), Box::new(m.value_type.model())),
            Type::Extension(n) => TypeModel::Extension(n@),
        }
    }

    /// One step of the structure of a type.
    pub broadcast proof fn lemma_model(self)
        ensures
            #[trigger] self.model() == match self {
                Type::Primitive(k) => TypeModel::Primitive(k),
                Type::Array(a) => TypeModel::Array(Box::new(a.element().model())),
                Type::Mapping(m) => TypeModel::Mapping(Box::new(m.key().model()), Box::new(m.value().model())),
                Type::Extension(n) => TypeModel::Extension(n@),
            },
    {
    }

    /// The canonical name of this type.
    pub fn name(&self) -> (r: TypeNameRef)
        ensures
            r@ == model_name(self.model()),
    {
        match self {
            Type::Primitive(k) => Arc::new(k.name()),
            Type::Array(a) => {
                proof {
                    use_type_invariant(a);
                }
                a.canonical.clone()
            },
            Type::Mapping(m) => {
                proof {
                    use_type_invariant(m);
                }
                m.canonical.clone()
            },
            Type::Extension(n) => n.clone(),
        }
    }
}

/// Structural comparison of two resolved types.
pub fn same_type(a: &Type, b: &Type) -> (r: bool)
    ensures
        r == (a.model() == b.model()),
    decreases a,
{
    match (a, b) {
        (Type::Primitive(x), Type::Primitive(y)) => *x == *y,
        (Type::Array(x), Type::Array(y)) => same_type(&x.element_type, &y.element_type),
        (Type::Mapping(x), Type::Mapping(y)) => {
            same_type(&x.key_type, &y.key_type) && same_type(&x.value_type, &y.value_type)
        },
        (Type::Extension(x), Type::Extension(y)) => **x == **y,
        _ => false,
    }
}

impl ArrayType {
    pub closed spec fn element(self) -> TypeRef {
        self.element_type
    }

    #[verifier::type_invariant]
    closed spec fn inv(self) -> bool {
        self.canonical@ == model_name(TypeModel::Array(Box::new(self.element_type.model())))
    }

    pub fn new(element_type: TypeRef) -> (r: ArrayType)
        ensures
            r.element() == element_type,
    {
        let element_name = element_type.name();
        let parameters = vec![TypeParameter::Type(element_name)];
        proof {
            reveal_strlit("array");
            crate::naming::lemma_params_model(parameters@);
            assert(params_model(parameters@) =~= seq![ParamModel::Type(model_name(element_type.model()))]);
        }
        let canonical = Arc::new(TypeName::new("array", parameters));
        ArrayType { element_type, canonical }
    }

    /// The canonical name `array(element)`.
    pub fn name(&self) -> (r: &TypeNameRef)
        ensures
            r@ == model_name(TypeModel::Array(Box::new(self.element().model()))),
    {
        proof {
            use_type_invariant(self);
        }
        &self.canonical
    }
}

impl MapType {
    pub closed spec fn key(self) -> TypeRef {
        self.key_type
    }

    pub closed spec fn value(self) -> TypeRef {
        self.value_type
    }

    #[verifier::type_invariant]
    closed spec fn inv(self) -> bool {
        self.canonical@ == model_name(
            TypeModel::Mapping(Box::new(self.key_type.model()), Box::new(self.value_type.model())),
        )
    }

    pub fn new(key_type: TypeRef, value_type: TypeRef) -> (r: MapType)
        ensures
            r.key() == key_type,
            r.value() == value_type,
    {
        let key_name = key_type.name();
        let value_name = value_type.name();
        let parameters = vec![TypeParameter::Type(key_name), TypeParameter::Type(value_name)];
        proof {
            reveal_strlit("map");
            crate::naming::lemma_params_model(parameters@);
            assert(params_model(parameters@) =~= seq![
                ParamModel::Type(model_name(key_type.model())),
                ParamModel::Type(model_name(value_type.model())),
            ]);
        }
        let canonical = Arc::new(TypeName::new("map", parameters));
        MapType { key_type, value_type, canonical }
    }

    /// The canonical name `map(key, value)`.
    pub fn name(&self) -> (r: &TypeNameRef)
        ensures
            r@ == model_name(
                TypeModel::Mapping(Box::new(self.key().model()), Box::new(self.value().model())),
            ),
    {
        proof {
            use_type_invariant(self);
        }
        &self.canonical
    }
}

} // verus!
