//! Bookkeeping core of an R1CS constraint synthesizer: a hole-preserving
//! slot store, a synthesizer with scoped (namespaced) allocation on top of
//! it, and the flattened circuit form used for persistence.

pub mod slot_store;
pub mod circuit;
pub mod scope_laws;
pub mod synthesizer;
pub mod serialized_circuit;
pub mod codec_laws;
pub mod bls12_377;
