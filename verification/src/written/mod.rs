//! Texts as they are written, and what is read from them.
pub mod attributes;
pub mod bytes;
pub mod declared;
pub mod document;
pub mod heredoc;
pub mod mistakes;
pub mod paths;
pub mod pulled;
pub mod pulling;
pub mod queued;
pub mod reading;
pub mod refused;
pub mod remarks;
pub mod tokens;
