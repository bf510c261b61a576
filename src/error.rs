//! Failures of registration, resolution and parsing.

use vstd::prelude::*;

verus! {

/// Why a registration, a resolution or a parse failed.
#[derive(Debug, Clone, PartialEq, Eq)]
pub enum TypeError {
    /// A provider is already registered for this basename.
    DuplicateProviderRegistration(String),
    /// No provider is registered for this basename.
    UnknownBasename(String),
    /// The provider does not accept this name's parameters (canonical text).
    ShapeMismatch(String),
    /// The text does not follow the canonical type syntax.
    MalformedTypeSyntax(String),
}

/// A failure, as a mathematical value.
pub enum ErrorModel {
    DuplicateProviderRegistration(Seq<char>),
    UnknownBasename(Seq<char>),
    ShapeMismatch(Seq<char>),
    MalformedTypeSyntax(Seq<char>),
}

impl View for TypeError {
    type V = ErrorModel;

    open spec fn view(&self) -> ErrorModel {
        match self {
            TypeError::DuplicateProviderRegistration(s) => ErrorModel::DuplicateProviderRegistration(s@),
            TypeError::UnknownBasename(s) => ErrorModel::UnknownBasename(s@),
            TypeError::ShapeMismatch(s) => ErrorModel::ShapeMismatch(s@),
            TypeError::MalformedTypeSyntax(s) => ErrorModel::MalformedTypeSyntax(s@),
        }
    }
}

} // verus!
