//! Statements of bank operations, and the YPBank text, CSV and binary formats
//! that carry them.

mod formats;

/// The domain model: operations and statements.
pub use formats::data;
/// Errors of the library.
pub use formats::errors;
/// The YPBank formats (csv, txt, bin).
pub use formats::ypbank;
/// What the command-line tools decide.
pub mod cli;
