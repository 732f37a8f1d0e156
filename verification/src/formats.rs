//! The formats of the library and the model they share.

pub mod data;
pub mod errors;
pub mod ypbank;
