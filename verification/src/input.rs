//! Importers of model descriptions from files; the importers themselves
//! read files and stand outside the library.
use vstd::prelude::*;

verus! {

/// An importer of a module in HLO form.
pub trait HLOModelImporter: Sized {
    fn new() -> Self;

    fn ImportFrom(&self, filename: &str);
}

/// An importer of a model given as a graph of operations.
pub trait DAGModelImporter: Sized {
    fn new() -> Self;

    fn ImportFrom(&self, filename: &str);
}

} // verus!
