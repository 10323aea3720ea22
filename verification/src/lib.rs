//! Bidirectional conversion between raw bytes and a line-oriented hex text
//! format: an address column, grouped hex byte pairs and an optional ASCII
//! preview. Every function is verified against the mathematical description
//! of the format in [`format`].

pub mod config;
pub mod convert;
pub mod digits;
pub mod error;
pub mod format;
pub mod laws;
mod lemmas;
pub mod text;

pub use config::Config;
pub use error::{Error, Result};
