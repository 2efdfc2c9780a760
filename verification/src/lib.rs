pub mod abe_attribute;
pub mod access_tree;
pub mod aes;
pub mod crypto;
pub mod errors;
pub mod groups;
pub mod models;
pub mod parser;
