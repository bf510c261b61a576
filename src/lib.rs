//! A catalog of logical types: canonical type names, builtin primitive and
//! composite types, and a registry that resolves names into types.

pub mod builtin;
pub mod error;
pub mod laws;
pub mod manager;
pub mod naming;
pub mod syntax;
pub mod types;

pub use builtin::BuiltinTypeProvider;
pub use error::TypeError;
pub use manager::{CatalogProvider, NamedTypeProvider, TypeManager, TypeProvider};
pub use naming::{TypeName, TypeNameRef, TypeParameter};
pub use syntax::is_valid_basename;
pub use types::{ArrayType, BuiltinPrimitiveType, MapType, Type, TypeRef, same_type};
