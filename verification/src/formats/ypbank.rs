//! The YPBank family of formats.

/// Binary YPBank format.
pub mod bin;
/// CSV YPBank format.
pub mod csv;
/// The fields of a record, their values and the rules of meaning, shared by
/// the formats.
pub mod fields;
pub mod layout;
/// Text YPBank format.
pub mod txt;
/// Characters, lines and decimal numbers, for the text formats.
pub mod text;
