//! The error type shared by every parsing routine.

use vstd::prelude::*;

verus! {

/// A terminal parse failure. Wherever the grammar allows it, the variant
/// carries the byte index of the offending input position.
#[derive(Debug, Clone, Copy, PartialEq, Eq)]
pub enum ParseError {
    /// A byte that cannot start or continue the construct being parsed,
    /// at the given index.
    InvalidCharacter(usize),
    /// The input ended where more bytes were required.
    UnexpectedEOF,
    /// The input ended inside a quoted string; carries the index of the
    /// first byte after the opening quote.
    UnexpectedEOFWhileParsingString(usize),
    /// A raw (unescaped) line break inside a quoted string, at the given index.
    LineBreakWhileParsingString(usize),
    /// A stray `,`, `]` or `}` where an array element or object key was
    /// required, at the given index.
    UnexpectedCommaInArrayOrObject(usize),
    /// An integer literal that does not fit in a 64-bit signed integer.
    ParseIntError,
    /// A floating-point literal whose conversion by the native float
    /// parser failed. The parser itself hands float literals on as
    /// validated text; this variant is reserved for the conversion that
    /// callers perform on them.
    ParseFloatError,
    /// A `\u` escape that does not denote a Unicode scalar value.
    InvalidEscapeSequence,
    /// A non-hexadecimal digit inside a `\u` escape.
    InvalidHex,
}

} // verus!
