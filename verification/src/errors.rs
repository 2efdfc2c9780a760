pub mod abe_error;
pub mod parse_error;
pub mod symmetric_encryption_error;

pub use abe_error::AbeError;
