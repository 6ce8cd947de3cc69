//! Errors of derivation, propagation and AST caching.
use vstd::prelude::*;

verus! {

/// Errors raised while deriving the splits of an instruction.
#[derive(Debug, Clone, PartialEq, Eq)]
pub enum DeriveError {
    /// An optional field that the derivation needs is absent.
    OptionNone(String),
    /// The instruction has no meta entry with this key.
    MetaKeyNotFound(String),
    /// The meta entry has no value of this kind.
    MetaValueNotFound(String),
    /// No derivation exists for this instruction.
    DerivationUnimplemented(String),
    /// No AST is attached to the derivation.
    ASTNotPresent(),
    /// The instruction is not in the derivation cache.
    InstNotInCache(String),
    /// The derivation cache was read before it was filled.
    CacheNotAvailable(),
    /// A reshape whose dimensions do not group into equal products; names
    /// the instruction's variable.
    NoProductMatch(String),
    /// A reshape dimension that no output dimension covers; names the
    /// instruction's variable.
    DimensionNotMapped(String),
    /// An unknown failure.
    Unknown,
}

/// The plain view of a `DeriveError`.
pub enum DeriveErrorView {
    OptionNone(Seq<char>),
    MetaKeyNotFound(Seq<char>),
    MetaValueNotFound(Seq<char>),
    DerivationUnimplemented(Seq<char>),
    ASTNotPresent,
    InstNotInCache(Seq<char>),
    CacheNotAvailable,
    NoProductMatch(Seq<char>),
    DimensionNotMapped(Seq<char>),
    Unknown,
}

impl View for DeriveError {
    type V = DeriveErrorView;

    open spec fn view(&self) -> DeriveErrorView {
        match self {
            DeriveError::OptionNone(m) => DeriveErrorView::OptionNone(m@),
            DeriveError::MetaKeyNotFound(m) => DeriveErrorView::MetaKeyNotFound(m@),
            DeriveError::MetaValueNotFound(m) => DeriveErrorView::MetaValueNotFound(m@),
            DeriveError::DerivationUnimplemented(m) => DeriveErrorView::DerivationUnimplemented(m@),
            DeriveError::ASTNotPresent() => DeriveErrorView::ASTNotPresent,
            DeriveError::InstNotInCache(m) => DeriveErrorView::InstNotInCache(m@),
            DeriveError::CacheNotAvailable() => DeriveErrorView::CacheNotAvailable,
            DeriveError::NoProductMatch(m) => DeriveErrorView::NoProductMatch(m@),
            DeriveError::DimensionNotMapped(m) => DeriveErrorView::DimensionNotMapped(m@),
            DeriveError::Unknown => DeriveErrorView::Unknown,
        }
    }
}

/// Errors raised while propagating splits through a function.
#[derive(Debug, Clone, PartialEq, Eq)]
pub enum PropagationError {
    /// An optional field that the propagation needs is absent.
    OptionNone(String),
    /// A variable was reached again with an incompatible split.
    AlreadyVisitedIncompatible(String),
    /// Reading the instruction that propagation reached failed.
    Derive(DeriveError),
    /// An unknown failure.
    Unknown,
}

/// Errors raised while building the positional caches of an AST.
#[derive(Debug, Clone, PartialEq, Eq)]
pub enum ASTError {
    /// The function cache was already built.
    CacheFuncTwice,
    /// The instruction cache was already built.
    CacheInstTwice,
    /// The variable position cache was already built.
    CacheVarPosTwice,
}

} // verus!
