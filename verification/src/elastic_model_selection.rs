//! Vocabulary of statistical kernel selection.

use vstd::prelude::*;

verus! {

/// Strength of the evidence that the selected kernel is faster than the runner-up.
#[derive(Clone, Copy, Debug, PartialEq, Eq, Structural)]
pub enum SelectionConfidence {
    /// Welch p < 0.01.
    Strong,
    /// Welch p < 0.05.
    Significant,
    /// The median is best but the available samples do not distinguish it from noise.
    Provisional,
    /// There is no second semantically valid kernel to compare against.
    Uncontested,
}

/// Invalid or insufficient model-selection evidence.
#[derive(Clone, Copy, Debug, PartialEq, Eq, Structural)]
pub enum ModelSelectionError {
    NoMeasurements,
    NoSemanticallyValidKernel { piece_len: usize },
}

} // verus!
