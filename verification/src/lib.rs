//! A small, dependency-light JSON library: a recursive-descent parser that
//! turns JSON text (given as bytes) into an in-memory tree of [`Value`]s,
//! together with typed accessors for navigating and building such trees.
//!
//! The whole grammar — whitespace, the numeric-literal state machine, quoted
//! strings with escape decoding, arrays and objects — is stated as spec-level
//! functions over byte sequences in [`grammar`], and every executable parsing
//! function is proved to return exactly what those functions say.

pub mod error;
pub mod grammar;
pub mod parse;
pub mod value;

pub use error::ParseError;
pub use parse::unescape_string;
pub use parse::Parser;
pub use value::ArrayExt;
pub use value::IndexOrKey;
pub use value::InsertKey;
pub use value::Number;
pub use value::ObjectExt;
pub use value::SpecNumber;
pub use value::SpecValue;
pub use value::Value;
pub use value::ValueMap;
