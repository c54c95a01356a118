//! Lazy splitting of a borrowed string on a delimiter, without copying.
//!
//! Text is modelled by its UTF-8 bytes (`str::spec_bytes`); every offset a
//! delimiter reports is a byte offset that lies on a character boundary.
pub mod delimiter;
pub mod splitter;
pub mod laws;

pub use delimiter::Delimiter;
pub use splitter::{until_char, Splitter};
