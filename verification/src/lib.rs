//! Reversible token compression for LLM prompts, logs and outputs.
//!
//! Text is escaped, then passed through up to four stages (whitespace,
//! repeated lines, long URLs, filler phrases); each stage records in a map
//! what it removed, and expansion undoes the stages in reverse order and
//! unescapes, giving the input back character for character. The map travels
//! in a footer after the compressed body, or beside it.

pub mod cache;
pub mod cli;
pub mod compress;
pub mod dedup;
pub mod error;
pub mod escape;
pub mod expand;
pub mod filler;
pub mod map;
pub mod roundtrip;
pub mod text;
pub mod tokens;
pub mod urls;
pub mod ws;

pub use compress::{compress_text, Options};
pub use error::TcError;
pub use expand::expand_text;
pub use map::TcMap;
