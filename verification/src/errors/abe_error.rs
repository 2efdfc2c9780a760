use vstd::prelude::*;

verus! {

/// A failure in one of the attribute-based encryption operations:
/// an unknown attribute, a non-invertible scalar, an unsatisfied
/// policy, an empty decryption set, or a symmetric-layer failure.
#[derive(Clone, Debug, PartialEq, Eq)]
pub struct AbeError {
    pub message: String,
}

impl AbeError {
    pub fn new(message: &str) -> (r: AbeError)
        ensures
            r.message@ == message@,
    {
        AbeError { message: message.to_owned() }
    }
}

} // verus!
