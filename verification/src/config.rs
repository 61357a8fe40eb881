//! Plain configuration enums shared with the model-loading side.

use vstd::prelude::*;

verus! {

/// The activation function used by the encoder's feed-forward layers.
#[derive(Clone, Copy, Debug, PartialEq, Eq, Structural)]
pub enum HiddenAct {
    Gelu,
    Relu,
    Tanh,
}

/// How the encoder represents token positions.
#[derive(Clone, Copy, Debug, PartialEq, Eq, Structural)]
pub enum PositionEmbeddingType {
    Absolute,
}

impl Default for PositionEmbeddingType {
    /// The default position embedding is the absolute one.
    fn default() -> (r: Self)
        ensures
            r == PositionEmbeddingType::Absolute,
    {
        PositionEmbeddingType::Absolute
    }
}

} // verus!
