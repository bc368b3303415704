//! The bits of a record's flag word.

use vstd::prelude::*;

verus! {

/// Mixture of experts: only the active parameters move per token.
pub const MOE: u16 = 1;

/// Accepts images.
pub const VISION: u16 = 2;

/// An embedding model, not a generator.
pub const EMBEDDING: u16 = 4;

/// The layer and head counts are real values from the model's configuration.
/// Without this the cache figure is inferred.
pub const ARCH_METADATA: u16 = 8;

/// Instruction-tuned rather than a base model.
pub const INSTRUCT: u16 = 16;

/// A GGUF conversion is known to exist.
pub const GGUF: u16 = 32;

} // verus!
