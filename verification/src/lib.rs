//! Verified core of a small cheminformatics toolkit: bit-vector fingerprints
//! and the RECAP fragmentation of molecules into a graph of fragments.

pub mod bitvector;
pub mod errors;
pub mod fingerprint;
pub mod fragment;
pub mod params;
pub mod rows;

pub use errors::RDError;
pub use params::SmilesParserParams;
