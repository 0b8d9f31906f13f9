use vstd::prelude::*;

verus! {

/// Why a fusion input was rejected.
#[derive(Clone, Copy, Debug, PartialEq, Eq, Structural)]
pub enum FusionError {
    /// The number of weights differs from the number of ranked lists.
    LengthMismatch { lists: usize, weights: usize },
    /// A weight or a score was given with denominator zero.
    ZeroDenominator,
}

impl FusionError {
    /// What went wrong, in words.
    pub fn describe(&self) -> (r: &'static str)
        ensures
            self is LengthMismatch ==> r@
                == "the number of weights differs from the number of ranked lists"@,
            self is ZeroDenominator ==> r@ == "a denominator is zero"@,
    {
        match self {
            FusionError::LengthMismatch { .. } => {
                "the number of weights differs from the number of ranked lists"
            },
            FusionError::ZeroDenominator => "a denominator is zero",
        }
    }
}

} // verus!
