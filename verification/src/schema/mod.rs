//! Schemas for Styx documents, and the validation of values against them.
pub mod check;
pub mod error;
pub mod fields;
pub mod guard;
pub mod laws;
pub mod meta;
pub mod names;
pub mod number;
pub mod numerals;
pub mod outcome;
pub mod shapes;
pub mod types;
pub mod value;
pub mod validate;
