//! How the text of a molecule is read.

use vstd::prelude::*;

verus! {

/// The settings under which a SMILES string is parsed.
pub struct SmilesParserParams {
    /// Whether explicit hydrogens are removed; defaults to true.
    pub remove_hs: bool,
    /// Whether the molecule is sanitized; defaults to true.
    pub sanitize: bool,
}

impl Default for SmilesParserParams {
    /// Hydrogens are removed and the molecule is sanitized.
    fn default() -> (params: Self)
        ensures
            params.remove_hs,
            params.sanitize,
    {
        Self { remove_hs: true, sanitize: true }
    }
}

} // verus!
