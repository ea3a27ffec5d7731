//! Decoding, validation and re-encoding of mixture documents for a
//! group-contribution activity-coefficient model.
pub mod document;
pub mod groups;
pub mod token;
