use vstd::prelude::*;

verus! {

/// A failure in the symmetric envelope: a payload too short to carry
/// a nonce, or an authentication-tag mismatch.
#[derive(Clone, Debug, PartialEq, Eq)]
pub struct SymmetricEncryptionError {
    pub message: String,
}

impl SymmetricEncryptionError {
    pub fn new(message: &str) -> (r: SymmetricEncryptionError)
        ensures
            r.message@ == message@,
    {
        SymmetricEncryptionError { message: message.to_owned() }
    }
}

} // verus!
