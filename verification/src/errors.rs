use vstd::prelude::*;

verus! {

/// The failure conditions the engine distinguishes.
///
/// Lookups of unknown names or ids fail with `DictionaryLookupFailed`; a model
/// whose serialized form fails structural validation is `CorruptModel`; a
/// candidate label sequence whose length differs from the scored sequence is a
/// `LengthMismatch`; a weight vector shorter than the feature table implies is
/// an `InvalidFeatureIndex`; arithmetic that would leave the fixed-point range
/// during training or scoring is `TrainingDiverged`.
#[derive(Clone, Copy, PartialEq, Eq, Structural, Debug)]
pub enum CrfError {
    DictionaryLookupFailed,
    CorruptModel,
    LengthMismatch,
    InvalidFeatureIndex,
    TrainingDiverged,
}

impl CrfError {
    /// A short description of the error, for callers that report failures.
    pub fn message(&self) -> (r: &'static str)
    {
        match self {
            CrfError::DictionaryLookupFailed => "unknown name or id",
            CrfError::CorruptModel => "model failed structural validation",
            CrfError::LengthMismatch => "label sequence length differs from the scored sequence",
            CrfError::InvalidFeatureIndex => "weight vector does not cover the feature table",
            CrfError::TrainingDiverged => "numeric overflow in a score or gradient",
        }
    }
}

} // verus!
