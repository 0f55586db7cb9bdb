//! The JSON grammar, stated over byte sequences.
//!
//! Every function here is specification-level: together they say, for any
//! input and start position, exactly which value a construct denotes, how far
//! it extends, and which error (with which index) is reported otherwise. The
//! executable parser in [`crate::parse`] is proved to agree with these
//! functions on every input.

use vstd::prelude::*;

use crate::error::ParseError;
use crate::value::lemma_obj_find;
use crate::value::obj_keys_unique;
use crate::value::spec_obj_insert;
use crate::value::spec_value_wf;
use crate::value::SpecNumber;
use crate::value::SpecValue;

verus! {

/// ASCII whitespace: space, tab, line feed, form feed, carriage return.
pub open spec fn is_ws(b: u8) -> bool {
    b == 0x20 || b == 0x09 || b == 0x0a || b == 0x0c || b == 0x0d
}

/// The first position at or after `i` holding a non-whitespace byte
/// (or the end of the input).
pub open spec fn skip_ws(s: Seq<u8>, i: int) -> int
    decreases s.len() - i,
{
    if 0 <= i < s.len() && is_ws(s[i]) {
        skip_ws(s, i + 1)
    } else {
        i
    }
}

/// Skipping whitespace never moves backwards, stays within the input, and
/// stops on the first non-whitespace byte.
pub proof fn lemma_skip_ws(s: Seq<u8>, i: int)
    ensures
        i <= skip_ws(s, i),
        i <= s.len() ==> skip_ws(s, i) <= s.len(),
        0 <= i && skip_ws(s, i) < s.len() ==> !is_ws(s[skip_ws(s, i)]),
        forall|k: int| i <= k < skip_ws(s, i) ==> is_ws(s[k]),
    decreases s.len() - i,
{
    if 0 <= i < s.len() && is_ws(s[i]) {
        lemma_skip_ws(s, i + 1);
    }
}

/// A decimal digit `0`..`9`.
pub open spec fn is_digit(b: u8) -> bool {
    0x30 <= b <= 0x39
}

/// A byte that ends a numeric literal without belonging to it:
/// `}`, `]`, `,` or whitespace.
pub open spec fn is_number_terminator(b: u8) -> bool {
    b == 0x7d || b == 0x5d || b == 0x2c || is_ws(b)
}

/// A byte that may occur inside a numeric literal: a digit, a sign,
/// the decimal point, or an exponent marker.
pub open spec fn is_num_byte(b: u8) -> bool {
    is_digit(b) || b == 0x2b || b == 0x2d || b == 0x2e || b == 0x65 || b == 0x45
}

/// The states of the numeric-literal state machine.
///
/// Grammar: `sign? (0 | [1-9][0-9]*) (. [0-9]+)? ([eE] sign? [0-9]+)?`.
#[derive(Debug, Clone, Copy, PartialEq, Eq, Structural)]
pub enum NumState {
    /// Before everything.
    Start,
    /// After a leading `+` or `-`.
    AfterSign,
    /// After a leading zero; no further digit may follow.
    AfterZero,
    /// Inside the integer part.
    IntegerPart,
    /// After the decimal point; at least one digit is mandatory.
    AfterDecimalPoint,
    /// Inside the fractional part.
    FractionalPart,
    /// After the exponent marker; at least one digit is mandatory.
    AfterExponent,
    /// After the exponent's sign.
    AfterExponentSign,
    /// Inside the exponent's digits.
    ExponentPart,
}

/// True in the states where the literal may end (on a terminator byte or at
/// the end of the input).
pub open spec fn num_accepting(st: NumState) -> bool {
    st == NumState::AfterZero || st == NumState::IntegerPart || st == NumState::FractionalPart
        || st == NumState::ExponentPart
}

/// Runs the numeric state machine from position `i` in state `st`, with
/// `is_int` recording whether no decimal point or exponent marker has been
/// seen yet. On success, returns the end of the literal (exclusive; the
/// cursor also stands there, since a terminator byte is not consumed) and the
/// final integer/float classification. On failure, reports the index of the
/// offending byte.
pub open spec fn spec_scan_number(s: Seq<u8>, i: int, st: NumState, is_int: bool) -> Result<
    (int, bool),
    ParseError,
>
    decreases s.len() - i,
{
    if !(0 <= i < s.len()) {
        if num_accepting(st) {
            Ok((i, is_int))
        } else {
            Err(ParseError::InvalidCharacter(i as usize))
        }
    } else {
        let b = s[i];
        match st {
            NumState::Start => if b == 0x2b || b == 0x2d {
                spec_scan_number(s, i + 1, NumState::AfterSign, is_int)
            } else if b == 0x30 {
                spec_scan_number(s, i + 1, NumState::AfterZero, is_int)
            } else if 0x31 <= b <= 0x39 {
                spec_scan_number(s, i + 1, NumState::IntegerPart, is_int)
            } else {
                Err(ParseError::InvalidCharacter(i as usize))
            },
            NumState::AfterSign => if b == 0x30 {
                spec_scan_number(s, i + 1, NumState::AfterZero, is_int)
            } else if 0x31 <= b <= 0x39 {
                spec_scan_number(s, i + 1, NumState::IntegerPart, is_int)
            } else {
                Err(ParseError::InvalidCharacter(i as usize))
            },
            NumState::AfterZero => if b == 0x2e {
                spec_scan_number(s, i + 1, NumState::AfterDecimalPoint, false)
            } else if b == 0x65 || b == 0x45 {
                spec_scan_number(s, i + 1, NumState::AfterExponent, false)
            } else if is_number_terminator(b) {
                Ok((i, is_int))
            } else {
                Err(ParseError::InvalidCharacter(i as usize))
            },
            NumState::IntegerPart => if is_digit(b) {
                spec_scan_number(s, i + 1, NumState::IntegerPart, is_int)
            } else if b == 0x2e {
                spec_scan_number(s, i + 1, NumState::AfterDecimalPoint, false)
            } else if b == 0x65 || b == 0x45 {
                spec_scan_number(s, i + 1, NumState::AfterExponent, false)
            } else if is_number_terminator(b) {
                Ok((i, is_int))
            } else {
                Err(ParseError::InvalidCharacter(i as usize))
            },
            NumState::AfterDecimalPoint => if is_digit(b) {
                spec_scan_number(s, i + 1, NumState::FractionalPart, is_int)
            } else {
                Err(ParseError::InvalidCharacter(i as usize))
            },
            NumState::FractionalPart => if is_digit(b) {
                spec_scan_number(s, i + 1, NumState::FractionalPart, is_int)
            } else if b == 0x65 || b == 0x45 {
                spec_scan_number(s, i + 1, NumState::AfterExponent, is_int)
            } else if is_number_terminator(b) {
                Ok((i, is_int))
            } else {
                Err(ParseError::InvalidCharacter(i as usize))
            },
            NumState::AfterExponent => if b == 0x2b || b == 0x2d {
                spec_scan_number(s, i + 1, NumState::AfterExponentSign, is_int)
            } else if is_digit(b) {
                spec_scan_number(s, i + 1, NumState::ExponentPart, is_int)
            } else {
                Err(ParseError::InvalidCharacter(i as usize))
            },
            NumState::AfterExponentSign => if is_digit(b) {
                spec_scan_number(s, i + 1, NumState::ExponentPart, is_int)
            } else {
                Err(ParseError::InvalidCharacter(i as usize))
            },
            NumState::ExponentPart => if is_digit(b) {
                spec_scan_number(s, i + 1, NumState::ExponentPart, is_int)
            } else if is_number_terminator(b) {
                Ok((i, is_int))
            } else {
                Err(ParseError::InvalidCharacter(i as usize))
            },
        }
    }
}

/// Bounds and alphabet facts about a successful scan: the literal lies within
/// the input, consists of number bytes only, and is nonempty unless the scan
/// began in an accepting state.
pub proof fn lemma_scan_number_basic(s: Seq<u8>, i: int, st: NumState, is_int: bool)
    requires
        0 <= i <= s.len(),
    ensures
        spec_scan_number(s, i, st, is_int) matches Ok(p) ==> {
            &&& i <= p.0 <= s.len()
            &&& forall|k: int| i <= k < p.0 ==> is_num_byte(#[trigger] s[k])
            &&& !num_accepting(st) ==> p.0 > i
            &&& p.0 < s.len() ==> is_number_terminator(s[p.0])
        },
    decreases s.len() - i,
{
    if 0 <= i < s.len() {
        lemma_scan_number_basic(s, i + 1, NumState::AfterSign, is_int);
        lemma_scan_number_basic(s, i + 1, NumState::AfterZero, is_int);
        lemma_scan_number_basic(s, i + 1, NumState::IntegerPart, is_int);
        lemma_scan_number_basic(s, i + 1, NumState::AfterDecimalPoint, false);
        lemma_scan_number_basic(s, i + 1, NumState::AfterDecimalPoint, is_int);
        lemma_scan_number_basic(s, i + 1, NumState::FractionalPart, is_int);
        lemma_scan_number_basic(s, i + 1, NumState::AfterExponent, false);
        lemma_scan_number_basic(s, i + 1, NumState::AfterExponent, is_int);
        lemma_scan_number_basic(s, i + 1, NumState::AfterExponentSign, is_int);
        lemma_scan_number_basic(s, i + 1, NumState::ExponentPart, is_int);
    }
}

/// The digits of an integer literal: everything after the optional sign.
pub open spec fn int_digits_of(t: Seq<u8>) -> Seq<u8> {
    if t.len() > 0 && (t[0] == 0x2b || t[0] == 0x2d) {
        t.skip(1)
    } else {
        t
    }
}

/// A complete integer literal: an optional sign followed by at least one
/// decimal digit.
pub open spec fn is_int_token(t: Seq<u8>) -> bool {
    t.len() > 0 && int_digits_of(t).len() > 0 && forall|k: int|
        0 <= k < int_digits_of(t).len() ==> is_digit(#[trigger] int_digits_of(t)[k])
}

/// The numeric value of a sequence of decimal digit bytes.
pub open spec fn dec_digits_value(t: Seq<u8>) -> int
    decreases t.len(),
{
    if t.len() == 0 {
        0
    } else {
        dec_digits_value(t.drop_last()) * 10 + (t.last() - 0x30)
    }
}

/// The signed numeric value of an integer literal (`sign? digits`).
pub open spec fn int_token_value(t: Seq<u8>) -> int {
    if t.len() > 0 && t[0] == 0x2d {
        -dec_digits_value(t.skip(1))
    } else if t.len() > 0 && t[0] == 0x2b {
        dec_digits_value(t.skip(1))
    } else {
        dec_digits_value(t)
    }
}

/// Whether a mathematical integer fits in a 64-bit signed integer.
pub open spec fn fits_i64(v: int) -> bool {
    -0x8000_0000_0000_0000 <= v <= 0x7fff_ffff_ffff_ffff
}

/// The value of a digit string is never negative.
pub proof fn lemma_dec_digits_nonneg(t: Seq<u8>)
    requires
        forall|k: int| 0 <= k < t.len() ==> is_digit(#[trigger] t[k]),
    ensures
        dec_digits_value(t) >= 0,
    decreases t.len(),
{
    if t.len() > 0 {
        lemma_dec_digits_nonneg(t.drop_last());
    }
}

/// Reading more digits never makes the value smaller: a prefix's value is a
/// lower bound.
pub proof fn lemma_dec_digits_prefix(t: Seq<u8>, j: int)
    requires
        0 <= j <= t.len(),
        forall|k: int| 0 <= k < t.len() ==> is_digit(#[trigger] t[k]),
    ensures
        dec_digits_value(t.take(j)) <= dec_digits_value(t),
    decreases t.len() - j,
{
    if j < t.len() {
        lemma_dec_digits_prefix(t, j + 1);
        assert(t.take(j + 1).drop_last() =~= t.take(j));
        assert(forall|k: int| 0 <= k < t.take(j).len() ==> is_digit(#[trigger] t.take(j)[k]));
        lemma_dec_digits_nonneg(t.take(j));
    } else {
        assert(t.take(j) =~= t);
    }
}

/// A scan that starts fresh and still classifies the literal as an integer
/// consumed nothing but an optional sign followed by digits.
pub proof fn lemma_scan_int_token(s: Seq<u8>, i: int)
    requires
        0 <= i <= s.len(),
        spec_scan_number(s, i, NumState::Start, true) matches Ok(p) && p.1,
    ensures
        spec_scan_number(s, i, NumState::Start, true) matches Ok(p) ==> is_int_token(
            s.subrange(i, p.0),
        ),
{
    let p = spec_scan_number(s, i, NumState::Start, true)->Ok_0;
    lemma_scan_number_basic(s, i, NumState::Start, true);
    let t = s.subrange(i, p.0);
    if s[i] == 0x2b || s[i] == 0x2d {
        lemma_scan_int_digits(s, i + 1, NumState::AfterSign);
        assert(t.skip(1) =~= s.subrange(i + 1, p.0));
    } else {
        lemma_scan_int_digits(s, i + 1, NumState::AfterZero);
        lemma_scan_int_digits(s, i + 1, NumState::IntegerPart);
        assert(forall|k: int| 0 <= k < t.len() ==> t[k] == s[i + k]);
    }
}

/// In the sign-free integer states, a scan that ends classified as an integer
/// consumed digits only.
proof fn lemma_scan_int_digits(s: Seq<u8>, i: int, st: NumState)
    requires
        0 <= i <= s.len(),
        st == NumState::AfterSign || st == NumState::AfterZero || st == NumState::IntegerPart,
    ensures
        spec_scan_number(s, i, st, true) matches Ok(p) ==> (p.1 ==> forall|k: int|
            i <= k < p.0 ==> is_digit(#[trigger] s[k])),
    decreases s.len() - i,
{
    if 0 <= i < s.len() {
        lemma_scan_int_digits(s, i + 1, NumState::AfterSign);
        lemma_scan_int_digits(s, i + 1, NumState::AfterZero);
        lemma_scan_int_digits(s, i + 1, NumState::IntegerPart);
        lemma_scan_flag_false(s, i + 1, NumState::AfterDecimalPoint);
        lemma_scan_flag_false(s, i + 1, NumState::AfterExponent);
    }
}

/// Once the classification flag has been cleared, it never comes back.
proof fn lemma_scan_flag_false(s: Seq<u8>, i: int, st: NumState)
    ensures
        spec_scan_number(s, i, st, false) matches Ok(p) ==> !p.1,
    decreases s.len() - i,
{
    if 0 <= i < s.len() {
        lemma_scan_flag_false(s, i + 1, NumState::AfterSign);
        lemma_scan_flag_false(s, i + 1, NumState::AfterZero);
        lemma_scan_flag_false(s, i + 1, NumState::IntegerPart);
        lemma_scan_flag_false(s, i + 1, NumState::AfterDecimalPoint);
        lemma_scan_flag_false(s, i + 1, NumState::FractionalPart);
        lemma_scan_flag_false(s, i + 1, NumState::AfterExponent);
        lemma_scan_flag_false(s, i + 1, NumState::AfterExponentSign);
        lemma_scan_flag_false(s, i + 1, NumState::ExponentPart);
    }
}

/// The scan classifies a literal as an integer exactly when it contains no
/// decimal point and no exponent marker. (The flag can still be set only in
/// the states before the decimal point, which is the stated hypothesis.)
pub proof fn lemma_scan_number_classification(s: Seq<u8>, i: int, st: NumState, is_int: bool)
    requires
        is_int ==> st == NumState::Start || st == NumState::AfterSign || st == NumState::AfterZero
            || st == NumState::IntegerPart,
    ensures
        spec_scan_number(s, i, st, is_int) matches Ok(p) ==> i <= p.0 && (p.1 <==> is_int
            && forall|k: int| i <= k < p.0 ==> !(s[k] == 0x2e || s[k] == 0x65 || s[k] == 0x45)),
    decreases s.len() - i,
{
    if 0 <= i < s.len() {
        lemma_scan_number_classification(s, i + 1, NumState::AfterSign, is_int);
        lemma_scan_number_classification(s, i + 1, NumState::AfterZero, is_int);
        lemma_scan_number_classification(s, i + 1, NumState::IntegerPart, is_int);
        lemma_scan_number_classification(s, i + 1, NumState::AfterDecimalPoint, false);
        lemma_scan_number_classification(s, i + 1, NumState::FractionalPart, false);
        lemma_scan_number_classification(s, i + 1, NumState::AfterExponent, false);
        lemma_scan_number_classification(s, i + 1, NumState::AfterExponentSign, false);
        lemma_scan_number_classification(s, i + 1, NumState::ExponentPart, false);
    }
}

/// Scans the inside of a quoted string from position `k` (with `start` the
/// index of the first byte after the opening quote, kept for error
/// reporting). A backslash makes the following byte part of the string
/// whatever it is; a raw line break is rejected at its index; running out of
/// input is rejected with the string's start index. On success, returns the
/// index of the closing quote.
pub open spec fn spec_scan_string(s: Seq<u8>, start: int, k: int) -> Result<int, ParseError>
    decreases s.len() + 2 - k,
{
    if !(0 <= k < s.len()) {
        Err(ParseError::UnexpectedEOFWhileParsingString(start as usize))
    } else if s[k] == 0x0a || s[k] == 0x0d {
        Err(ParseError::LineBreakWhileParsingString(k as usize))
    } else if s[k] == 0x22 {
        Ok(k)
    } else if s[k] == 0x5c {
        spec_scan_string(s, start, k + 2)
    } else {
        spec_scan_string(s, start, k + 1)
    }
}

/// A successful string scan ends on a closing quote at or after where it
/// began, within the input.
pub proof fn lemma_scan_string_basic(s: Seq<u8>, start: int, k: int)
    requires
        0 <= k,
    ensures
        spec_scan_string(s, start, k) matches Ok(q) ==> k <= q < s.len() && s[q] == 0x22,
    decreases s.len() + 2 - k,
{
    if 0 <= k < s.len() {
        lemma_scan_string_basic(s, start, k + 2);
        lemma_scan_string_basic(s, start, k + 1);
    }
}

/// The value of a hexadecimal digit byte, if it is one.
pub open spec fn hex_digit_value(b: u8) -> Option<u16> {
    if 0x30 <= b <= 0x39 {
        Some((b - 0x30) as u16)
    } else if 0x61 <= b <= 0x66 {
        Some((b - 0x57) as u16)
    } else if 0x41 <= b <= 0x46 {
        Some((b - 0x37) as u16)
    } else {
        None
    }
}

/// Reads the four hexadecimal digits of a `\u` escape, starting at the first
/// byte after `\u`. Digits are checked one at a time, so a bad digit is
/// reported even when the input then runs out.
pub open spec fn spec_hex4(t: Seq<u8>) -> Result<u16, ParseError> {
    if t.len() >= 1 && hex_digit_value(t[0]) is None {
        Err(ParseError::InvalidHex)
    } else if t.len() >= 2 && hex_digit_value(t[1]) is None {
        Err(ParseError::InvalidHex)
    } else if t.len() >= 3 && hex_digit_value(t[2]) is None {
        Err(ParseError::InvalidHex)
    } else if t.len() >= 4 && hex_digit_value(t[3]) is None {
        Err(ParseError::InvalidHex)
    } else if t.len() < 4 {
        Err(ParseError::UnexpectedEOF)
    } else {
        Ok(
            (((hex_digit_value(t[0])->Some_0 * 16 + hex_digit_value(t[1])->Some_0) * 16
                + hex_digit_value(t[2])->Some_0) * 16 + hex_digit_value(t[3])->Some_0) as u16,
        )
    }
}

/// The byte a single-character escape stands for: the named
/// control-character escapes decode to their control characters, and every
/// other byte stands for itself (deliberately permissive).
pub open spec fn unescaped_byte(e: u8) -> u8 {
    if e == 0x66 {
        0x0c  // \f
    } else if e == 0x62 {
        0x08  // \b
    } else if e == 0x6e {
        0x0a  // \n
    } else if e == 0x72 {
        0x0d  // \r
    } else if e == 0x74 {
        0x09  // \t
    } else {
        e
    }
}

/// Decodes the escape sequences in a raw (still-escaped) string body.
/// A `\u` escape must carry four hexadecimal digits and denote a Unicode
/// scalar value (surrogates are rejected); the scalar is appended as its
/// UTF-8 encoding. Any other escaped byte stands for itself, after the named
/// control-character escapes.
pub open spec fn spec_unescape(s: Seq<u8>) -> Result<Seq<u8>, ParseError>
    decreases s.len(),
{
    if s.len() == 0 {
        Ok(seq![])
    } else if s[0] != 0x5c {
        match spec_unescape(s.skip(1)) {
            Ok(t) => Ok(seq![s[0]] + t),
            Err(e) => Err(e),
        }
    } else if s.len() == 1 {
        Err(ParseError::UnexpectedEOF)
    } else if s[1] == 0x75 {
        match spec_hex4(s.skip(2)) {
            Err(e) => Err(e),
            Ok(v) => if 0xd800 <= v <= 0xdfff {
                Err(ParseError::InvalidEscapeSequence)
            } else {
                match spec_unescape(s.skip(6)) {
                    Ok(t) => Ok(vstd::utf8::encode_scalar(v as u32) + t),
                    Err(e) => Err(e),
                }
            },
        }
    } else {
        match spec_unescape(s.skip(2)) {
            Ok(t) => Ok(seq![unescaped_byte(s[1])] + t),
            Err(e) => Err(e),
        }
    }
}

/// The hexadecimal digit byte (lower case) for a value below 16.
pub open spec fn hex_digit_byte(v: u8) -> u8
    recommends
        v < 16,
{
    if v < 10 {
        (0x30 + v) as u8
    } else {
        (0x57 + v) as u8
    }
}

/// The escaped form of one byte, over the documented escape set: the named
/// control-character escapes, `\"` and `\\`, a `\u00XX` escape for the
/// remaining control bytes, and every other byte as itself.
pub open spec fn escaped_byte(b: u8) -> Seq<u8> {
    if b == 0x22 {
        seq![0x5c, 0x22]
    } else if b == 0x5c {
        seq![0x5c, 0x5c]
    } else if b == 0x0c {
        seq![0x5c, 0x66]
    } else if b == 0x08 {
        seq![0x5c, 0x62]
    } else if b == 0x0a {
        seq![0x5c, 0x6e]
    } else if b == 0x0d {
        seq![0x5c, 0x72]
    } else if b == 0x09 {
        seq![0x5c, 0x74]
    } else if b < 0x20 {
        seq![0x5c, 0x75, 0x30, 0x30, hex_digit_byte(b / 16), hex_digit_byte(b % 16)]
    } else {
        seq![b]
    }
}

/// The escaped form of a string, byte by byte.
pub open spec fn spec_escape(s: Seq<u8>) -> Seq<u8>
    decreases s.len(),
{
    if s.len() == 0 {
        seq![]
    } else {
        escaped_byte(s[0]) + spec_escape(s.skip(1))
    }
}

/// Whether `esc` is an escaped form of `s` built only from the documented
/// escape set: a byte that needs no escape may stand raw (anything but a
/// quote, a backslash or a control byte); the named escapes, `\"`, `\\`
/// and the optional `\/` stand for their characters; and a `\u` escape
/// with four hexadecimal digits stands for the UTF-8 encoding of any
/// Unicode scalar up to `U+FFFF` (surrogates excluded).
pub open spec fn is_escaped_form(esc: Seq<u8>, s: Seq<u8>) -> bool
    decreases esc.len(),
{
    if esc.len() == 0 {
        s.len() == 0
    } else if esc[0] != 0x5c {
        &&& esc[0] != 0x22
        &&& esc[0] >= 0x20
        &&& s.len() > 0
        &&& s[0] == esc[0]
        &&& is_escaped_form(esc.skip(1), s.skip(1))
    } else if esc.len() >= 2 && esc[1] == 0x75 {
        match spec_hex4(esc.subrange(2, esc.len() as int)) {
            Ok(v) => {
                let enc = vstd::utf8::encode_scalar(v as u32);
                &&& !(0xd800 <= v <= 0xdfff)
                &&& s.len() >= enc.len()
                &&& s.subrange(0, enc.len() as int) == enc
                &&& is_escaped_form(esc.skip(6), s.skip(enc.len() as int))
            },
            Err(_) => false,
        }
    } else if esc.len() >= 2 {
        let e = esc[1];
        &&& (e == 0x22 || e == 0x5c || e == 0x2f || e == 0x62 || e == 0x66 || e == 0x6e || e
            == 0x72 || e == 0x74)
        &&& s.len() > 0
        &&& s[0] == unescaped_byte(e)
        &&& is_escaped_form(esc.skip(2), s.skip(1))
    } else {
        false
    }
}

/// Decoding any escaped form built from the documented escape set
/// reproduces the original string exactly.
pub proof fn lemma_escaped_form_round_trip(esc: Seq<u8>, s: Seq<u8>)
    requires
        is_escaped_form(esc, s),
    ensures
        spec_unescape(esc) == Ok::<Seq<u8>, ParseError>(s),
    decreases esc.len(),
{
    if esc.len() == 0 {
        assert(s =~= Seq::<u8>::empty());
    } else if esc[0] != 0x5c {
        lemma_escaped_form_round_trip(esc.skip(1), s.skip(1));
        assert(seq![esc[0]] + s.skip(1) =~= s);
    } else if esc.len() >= 2 && esc[1] == 0x75 {
        let v = spec_hex4(esc.subrange(2, esc.len() as int))->Ok_0;
        let enc = vstd::utf8::encode_scalar(v as u32);
        lemma_escaped_form_round_trip(esc.skip(6), s.skip(enc.len() as int));
        assert(enc + s.skip(enc.len() as int) =~= s);
    } else {
        lemma_escaped_form_round_trip(esc.skip(2), s.skip(1));
        assert(seq![unescaped_byte(esc[1])] + s.skip(1) =~= s);
    }
}

/// The canonical escaper stays within the documented escape set: its output
/// is an escaped form of its input.
pub proof fn lemma_escape_is_escaped_form(s: Seq<u8>)
    ensures
        is_escaped_form(spec_escape(s), s),
    decreases s.len(),
{
    if s.len() == 0 {
        assert(spec_escape(s) =~= seq![]);
    } else {
        let b = s[0];
        let rest = s.skip(1);
        lemma_escape_is_escaped_form(rest);
        let e = escaped_byte(b);
        let w = spec_escape(s);
        assert(w == e + spec_escape(rest));
        assert(w.len() >= e.len());
        assert(forall|k: int| 0 <= k < e.len() ==> w[k] == e[k]);
        assert(w.skip(e.len() as int) =~= spec_escape(rest));
        if e.len() == 1 {
        } else if e.len() == 2 {
        } else {
            assert(b < 0x20);
            assert(w.skip(2)[0] == 0x30 && w.skip(2)[1] == 0x30 && w.skip(2)[2] == hex_digit_byte(
                b / 16,
            ) && w.skip(2)[3] == hex_digit_byte(b % 16));
            let v = spec_hex4(w.subrange(2, w.len() as int));
            assert(v == Ok::<u16, ParseError>((b / 16 * 16 + b % 16) as u16));
            assert(b / 16 * 16 + b % 16 == b) by {
                vstd::arithmetic::div_mod::lemma_fundamental_div_mod(b as int, 16);
            }
            assert(b < 0x20 ==> (b as u32 & 0x7f) as u8 == b) by (bit_vector);
            assert(vstd::utf8::encode_scalar(b as u32) =~= seq![b]);
            assert(s.subrange(0, 1) =~= seq![b]);
        }
    }
}

/// Decoding the escaped form of any string reproduces the string exactly:
/// escaping and unescaping round-trip.
pub proof fn lemma_escape_unescape_round_trip(s: Seq<u8>)
    ensures
        spec_unescape(spec_escape(s)) == Ok::<Seq<u8>, ParseError>(s),
{
    lemma_escape_is_escaped_form(s);
    lemma_escaped_form_round_trip(spec_escape(s), s);
}

/// The index reported by a line-break failure really holds a raw line break:
/// the scan's error is attributed to a line-break byte inside the string.
pub proof fn lemma_line_break_index(s: Seq<u8>, start: int, k: int, j: int)
    requires
        0 <= k,
        s.len() <= usize::MAX,
        spec_scan_string(s, start, k) == Err::<int, ParseError>(
            ParseError::LineBreakWhileParsingString(j as usize),
        ),
        0 <= j < s.len(),
    ensures
        s[j] == 0x0a || s[j] == 0x0d,
        k <= j,
    decreases s.len() + 2 - k,
{
    if 0 <= k < s.len() {
        if s[k] == 0x0a || s[k] == 0x0d {
        } else if s[k] == 0x22 {
        } else if s[k] == 0x5c {
            lemma_line_break_index(s, start, k + 2, j);
        } else {
            lemma_line_break_index(s, start, k + 1, j);
        }
    }
}

/// In a region free of quotes, backslashes and line breaks, the scan fails
/// exactly as the grammar prescribes: a raw line break at its own index, or,
/// if the input ends first, an end-of-input error carrying the string's
/// start.
pub proof fn lemma_scan_string_plain_region(s: Seq<u8>, start: int, k: int, j: int)
    requires
        0 <= k <= j <= s.len(),
        start <= usize::MAX,
        forall|m: int|
            k <= m < j ==> !(#[trigger] s[m] == 0x22 || s[m] == 0x5c || s[m] == 0x0a || s[m]
                == 0x0d),
    ensures
        j < s.len() && (s[j] == 0x0a || s[j] == 0x0d) ==> spec_scan_string(s, start, k)
            == Err::<int, ParseError>(ParseError::LineBreakWhileParsingString(j as usize)),
        j == s.len() ==> spec_scan_string(s, start, k) == Err::<int, ParseError>(
            ParseError::UnexpectedEOFWhileParsingString(start as usize),
        ),
        j < s.len() && s[j] == 0x22 ==> spec_scan_string(s, start, k) == Ok::<int, ParseError>(j),
    decreases j - k,
{
    if k < j {
        lemma_scan_string_plain_region(s, start, k + 1, j);
    }
}

/// Parses a complete numeric literal at position `i`: scan it with the
/// state machine, then convert — a literal without `.` or exponent becomes
/// an `Int` if it fits in 64 signed bits (and is rejected otherwise),
/// anything else becomes a `Float` carrying the literal's text. On success,
/// the new cursor position stands on the byte after the literal.
pub open spec fn spec_parse_number(s: Seq<u8>, i: int) -> Result<(SpecNumber, int), ParseError> {
    match spec_scan_number(s, i, NumState::Start, true) {
        Err(e) => Err(e),
        Ok((end, is_int)) => {
            let tok = s.subrange(i, end);
            if is_int {
                let v = int_token_value(tok);
                if fits_i64(v) {
                    Ok((SpecNumber::Int(v as i64), end))
                } else {
                    Err(ParseError::ParseIntError)
                }
            } else {
                Ok((SpecNumber::Float(tok), end))
            }
        },
    }
}

/// A successful number parse moves the cursor forward, within the input.
pub proof fn lemma_parse_number_advance(s: Seq<u8>, i: int)
    requires
        0 <= i <= s.len(),
    ensures
        spec_parse_number(s, i) matches Ok(p) ==> i < p.1 <= s.len(),
{
    lemma_scan_number_basic(s, i, NumState::Start, true);
}

/// Parses a complete quoted string at position `i`: an opening quote, the
/// scan to the closing quote, and escape decoding of the raw body between
/// the quotes.
pub open spec fn spec_parse_string(s: Seq<u8>, i: int) -> Result<(Seq<u8>, int), ParseError> {
    if !(0 <= i < s.len()) {
        Err(ParseError::UnexpectedEOF)
    } else if s[i] != 0x22 {
        Err(ParseError::InvalidCharacter(i as usize))
    } else {
        match spec_scan_string(s, i + 1, i + 1) {
            Err(e) => Err(e),
            Ok(q) => match spec_unescape(s.subrange(i + 1, q)) {
                Ok(t) => Ok((t, q + 1)),
                Err(e) => Err(e),
            },
        }
    }
}

/// A successful string parse consumes at least the two quotes, within the
/// input.
pub proof fn lemma_parse_string_advance(s: Seq<u8>, i: int)
    requires
        0 <= i,
    ensures
        spec_parse_string(s, i) matches Ok(p) ==> i + 2 <= p.1 <= s.len(),
{
    if 0 <= i < s.len() && s[i] == 0x22 {
        lemma_scan_string_basic(s, i + 1, i + 1);
    }
}

/// The bytes of the `null` keyword.
pub open spec fn lit_null() -> Seq<u8> {
    seq![0x6e, 0x75, 0x6c, 0x6c]
}

/// The bytes of the `true` keyword.
pub open spec fn lit_true() -> Seq<u8> {
    seq![0x74, 0x72, 0x75, 0x65]
}

/// The bytes of the `false` keyword.
pub open spec fn lit_false() -> Seq<u8> {
    seq![0x66, 0x61, 0x6c, 0x73, 0x65]
}

/// Whether `lit` occurs in `s` at position `i`.
pub open spec fn matches_at(s: Seq<u8>, i: int, lit: Seq<u8>) -> bool {
    0 <= i && i + lit.len() <= s.len() && s.subrange(i, i + lit.len()) == lit
}

/// Clamps `i` up to the floor `lo`; used only to make the recursion measures
/// of the mutually recursive parsing functions self-evident. The element
/// parser always advances the cursor (`lemma_parse_value_advances`), so the
/// clamp never actually changes the position.
pub open spec fn clamp_min(lo: int, i: int) -> int {
    if i < lo {
        lo
    } else {
        i
    }
}

/// Parses one JSON value at position `i`, dispatching on the first byte:
/// `n` to the `null` keyword, `t`/`f` to the boolean keywords, a sign or
/// digit to a number, a quote to a string, `[` to an array, `{` to an
/// object. Anything else is rejected at `i`; an empty rest is rejected as an
/// unexpected end of input.
pub open spec fn spec_parse_value(s: Seq<u8>, i: int) -> Result<(SpecValue, int), ParseError>
    decreases s.len() - i, 2int,
{
    if !(0 <= i < s.len()) {
        Err(ParseError::UnexpectedEOF)
    } else {
        let b = s[i];
        if b == 0x6e {
            if matches_at(s, i, lit_null()) {
                Ok((SpecValue::Null, i + 4))
            } else {
                Err(ParseError::InvalidCharacter(i as usize))
            }
        } else if b == 0x74 || b == 0x66 {
            if matches_at(s, i, lit_true()) {
                Ok((SpecValue::Boolean(true), i + 4))
            } else if matches_at(s, i, lit_false()) {
                Ok((SpecValue::Boolean(false), i + 5))
            } else {
                Err(ParseError::InvalidCharacter(i as usize))
            }
        } else if b == 0x2b || b == 0x2d || is_digit(b) {
            match spec_parse_number(s, i) {
                Ok(p) => Ok((SpecValue::Number(p.0), p.1)),
                Err(e) => Err(e),
            }
        } else if b == 0x22 {
            match spec_parse_string(s, i) {
                Ok(p) => Ok((SpecValue::String(p.0), p.1)),
                Err(e) => Err(e),
            }
        } else if b == 0x5b {
            spec_parse_array(s, i)
        } else if b == 0x7b {
            spec_parse_object(s, i)
        } else {
            Err(ParseError::InvalidCharacter(i as usize))
        }
    }
}

/// Parses an array at position `i` (which must hold `[`).
pub open spec fn spec_parse_array(s: Seq<u8>, i: int) -> Result<(SpecValue, int), ParseError>
    decreases s.len() - i, 1int,
{
    if !(0 <= i < s.len()) {
        Err(ParseError::UnexpectedEOF)
    } else if s[i] != 0x5b {
        Err(ParseError::InvalidCharacter(i as usize))
    } else {
        spec_parse_array_items(s, i + 1, seq![])
    }
}

/// The element loop of an array, with `acc` the elements parsed so far:
/// skip whitespace; a `]` closes only a still-empty array; a stray `]` or
/// `,` before an element is rejected; otherwise parse one element, and after
/// it require `,` (and continue) or `]` (and close).
pub open spec fn spec_parse_array_items(s: Seq<u8>, i: int, acc: Seq<SpecValue>) -> Result<
    (SpecValue, int),
    ParseError,
>
    decreases s.len() - i, 3int,
{
    proof {
        lemma_skip_ws(s, i);
    }
    let j = skip_ws(s, i);
    if !(0 <= j < s.len()) {
        Err(ParseError::UnexpectedEOF)
    } else if s[j] == 0x5d && acc.len() == 0 {
        Ok((SpecValue::Array(acc), j + 1))
    } else if s[j] == 0x5d || s[j] == 0x2c {
        Err(ParseError::UnexpectedCommaInArrayOrObject(j as usize))
    } else {
        match spec_parse_value(s, j) {
            Err(e) => Err(e),
            Ok(p) => {
                let m = clamp_min(j + 1, p.1);
                proof {
                    lemma_skip_ws(s, m);
                }
                let m2 = skip_ws(s, m);
                if !(m2 < s.len()) {
                    Err(ParseError::UnexpectedEOF)
                } else if s[m2] == 0x5d {
                    Ok((SpecValue::Array(acc.push(p.0)), m2 + 1))
                } else if s[m2] == 0x2c {
                    spec_parse_array_items(s, m2 + 1, acc.push(p.0))
                } else {
                    Err(ParseError::InvalidCharacter(m2 as usize))
                }
            },
        }
    }
}

/// Parses an object at position `i` (which must hold `{`).
pub open spec fn spec_parse_object(s: Seq<u8>, i: int) -> Result<(SpecValue, int), ParseError>
    decreases s.len() - i, 1int,
{
    if !(0 <= i < s.len()) {
        Err(ParseError::UnexpectedEOF)
    } else if s[i] != 0x7b {
        Err(ParseError::InvalidCharacter(i as usize))
    } else {
        spec_parse_object_items(s, i + 1, seq![])
    }
}

/// The member loop of an object, with `acc` the members parsed so far:
/// skip whitespace; a quote begins a key, after which `:` and a value are
/// required, the pair is inserted (a repeated key overwrites), and `,`
/// continues or `}` closes; a `}` alone closes only a still-empty object; a
/// stray `}` or `,` before a key is rejected, and so is any unquoted key.
pub open spec fn spec_parse_object_items(
    s: Seq<u8>,
    i: int,
    acc: Seq<(Seq<u8>, SpecValue)>,
) -> Result<(SpecValue, int), ParseError>
    decreases s.len() - i, 3int,
{
    proof {
        lemma_skip_ws(s, i);
    }
    let j = skip_ws(s, i);
    if !(0 <= j < s.len()) {
        Err(ParseError::UnexpectedEOF)
    } else if s[j] == 0x22 {
        match spec_parse_string(s, j) {
            Err(e) => Err(e),
            Ok(kp) => {
                proof {
                    lemma_parse_string_advance(s, j);
                    lemma_skip_ws(s, kp.1);
                }
                let m2 = skip_ws(s, kp.1);
                if !(m2 < s.len()) {
                    Err(ParseError::UnexpectedEOF)
                } else if s[m2] != 0x3a {
                    Err(ParseError::InvalidCharacter(m2 as usize))
                } else {
                    proof {
                        lemma_skip_ws(s, m2 + 1);
                    }
                    let m3 = skip_ws(s, m2 + 1);
                    match spec_parse_value(s, m3) {
                        Err(e) => Err(e),
                        Ok(p) => {
                            let m4 = clamp_min(m3 + 1, p.1);
                            proof {
                                lemma_skip_ws(s, m4);
                            }
                            let m5 = skip_ws(s, m4);
                            if !(m5 < s.len()) {
                                Err(ParseError::UnexpectedEOF)
                            } else if s[m5] == 0x2c {
                                spec_parse_object_items(s, m5 + 1, spec_obj_insert(acc, kp.0, p.0))
                            } else if s[m5] == 0x7d {
                                Ok(
                                    (
                                        SpecValue::Object(spec_obj_insert(acc, kp.0, p.0)),
                                        m5 + 1,
                                    ),
                                )
                            } else {
                                Err(ParseError::InvalidCharacter(m5 as usize))
                            }
                        },
                    }
                }
            },
        }
    } else if s[j] == 0x7d && acc.len() == 0 {
        Ok((SpecValue::Object(acc), j + 1))
    } else if s[j] == 0x7d || s[j] == 0x2c {
        Err(ParseError::UnexpectedCommaInArrayOrObject(j as usize))
    } else {
        Err(ParseError::InvalidCharacter(j as usize))
    }
}

/// The whole input as one JSON document: leading whitespace, exactly one
/// value, trailing whitespace, and nothing else.
pub open spec fn spec_parse_text(s: Seq<u8>) -> Result<SpecValue, ParseError> {
    let i = skip_ws(s, 0);
    match spec_parse_value(s, i) {
        Err(e) => Err(e),
        Ok(p) => {
            let k = skip_ws(s, p.1);
            if k >= s.len() {
                Ok(p.0)
            } else {
                Err(ParseError::InvalidCharacter(k as usize))
            }
        },
    }
}

/// A successful value parse moves the cursor strictly forward, within the
/// input.
pub proof fn lemma_parse_value_advances(s: Seq<u8>, i: int)
    requires
        0 <= i,
    ensures
        spec_parse_value(s, i) matches Ok(p) ==> i < p.1 <= s.len(),
    decreases s.len() - i, 2int,
{
    if 0 <= i < s.len() {
        let b = s[i];
        if b == 0x2b || b == 0x2d || is_digit(b) {
            lemma_parse_number_advance(s, i);
        } else if b == 0x22 {
            lemma_parse_string_advance(s, i);
        } else if b == 0x5b {
            lemma_parse_array_advances(s, i);
        } else if b == 0x7b {
            lemma_parse_object_advances(s, i);
        }
    }
}

/// A successful array parse moves the cursor strictly forward, within the
/// input.
pub proof fn lemma_parse_array_advances(s: Seq<u8>, i: int)
    requires
        0 <= i,
    ensures
        spec_parse_array(s, i) matches Ok(p) ==> i < p.1 <= s.len(),
    decreases s.len() - i, 1int,
{
    if 0 <= i < s.len() && s[i] == 0x5b {
        lemma_array_items_advance(s, i + 1, seq![]);
    }
}

/// A successful object parse moves the cursor strictly forward, within the
/// input.
pub proof fn lemma_parse_object_advances(s: Seq<u8>, i: int)
    requires
        0 <= i,
    ensures
        spec_parse_object(s, i) matches Ok(p) ==> i < p.1 <= s.len(),
    decreases s.len() - i, 1int,
{
    if 0 <= i < s.len() && s[i] == 0x7b {
        lemma_object_items_advance(s, i + 1, seq![]);
    }
}

/// The array element loop ends past where it began, within the input.
pub proof fn lemma_array_items_advance(s: Seq<u8>, i: int, acc: Seq<SpecValue>)
    requires
        0 <= i,
    ensures
        spec_parse_array_items(s, i, acc) matches Ok(p) ==> i < p.1 <= s.len(),
    decreases s.len() - i, 3int,
{
    lemma_skip_ws(s, i);
    let j = skip_ws(s, i);
    if 0 <= j < s.len() && !(s[j] == 0x5d || s[j] == 0x2c) {
        lemma_parse_value_advances(s, j);
        match spec_parse_value(s, j) {
            Ok(p) => {
                let m = clamp_min(j + 1, p.1);
                lemma_skip_ws(s, m);
                let m2 = skip_ws(s, m);
                if m2 < s.len() && s[m2] == 0x2c {
                    lemma_array_items_advance(s, m2 + 1, acc.push(p.0));
                }
            },
            Err(_) => {},
        }
    }
}

/// The object member loop ends past where it began, within the input.
pub proof fn lemma_object_items_advance(s: Seq<u8>, i: int, acc: Seq<(Seq<u8>, SpecValue)>)
    requires
        0 <= i,
    ensures
        spec_parse_object_items(s, i, acc) matches Ok(p) ==> i < p.1 <= s.len(),
    decreases s.len() - i, 3int,
{
    lemma_skip_ws(s, i);
    let j = skip_ws(s, i);
    if 0 <= j < s.len() && s[j] == 0x22 {
        lemma_parse_string_advance(s, j);
        match spec_parse_string(s, j) {
            Ok(kp) => {
                lemma_skip_ws(s, kp.1);
                let m2 = skip_ws(s, kp.1);
                if m2 < s.len() && s[m2] == 0x3a {
                    lemma_skip_ws(s, m2 + 1);
                    let m3 = skip_ws(s, m2 + 1);
                    lemma_parse_value_advances(s, m3);
                    match spec_parse_value(s, m3) {
                        Ok(p) => {
                            let m4 = clamp_min(m3 + 1, p.1);
                            lemma_skip_ws(s, m4);
                            let m5 = skip_ws(s, m4);
                            if m5 < s.len() && s[m5] == 0x2c {
                                lemma_object_items_advance(
                                    s,
                                    m5 + 1,
                                    spec_obj_insert(acc, kp.0, p.0),
                                );
                            }
                        },
                        Err(_) => {},
                    }
                }
            },
            Err(_) => {},
        }
    }
}

/// After a complete top-level value, trailing whitespace is accepted and the
/// document parses to that value; any trailing non-whitespace byte fails the
/// document at the first such position.
pub proof fn lemma_trailing_input(s: Seq<u8>)
    requires
        s.len() <= usize::MAX,
    ensures
        spec_parse_value(s, skip_ws(s, 0)) matches Ok(p) ==> {
            &&& (forall|k: int| p.1 <= k < s.len() ==> is_ws(#[trigger] s[k]))
                ==> spec_parse_text(s) == Ok::<SpecValue, ParseError>(p.0)
            &&& skip_ws(s, p.1) < s.len() ==> spec_parse_text(s) == Err::<SpecValue, ParseError>(
                ParseError::InvalidCharacter(skip_ws(s, p.1) as usize),
            ) && !is_ws(s[skip_ws(s, p.1)])
        },
{
    lemma_skip_ws(s, 0);
    let i = skip_ws(s, 0);
    lemma_parse_value_advances(s, i);
    match spec_parse_value(s, i) {
        Ok(p) => {
            lemma_skip_ws(s, p.1);
        },
        Err(_) => {},
    }
}

/// The parsed variant of a numeric literal matches its text: an `Int`
/// exactly when the literal contains no decimal point and no exponent
/// marker, and a `Float` otherwise.
pub proof fn lemma_number_variant(s: Seq<u8>, i: int)
    requires
        0 <= i <= s.len(),
    ensures
        spec_parse_number(s, i) matches Ok(p) ==> ((p.0 is Int) <==> (forall|k: int|
            i <= k < p.1 ==> !(s[k] == 0x2e || s[k] == 0x65 || s[k] == 0x45))),
        spec_parse_number(s, i) matches Ok(p) ==> ((p.0 is Float) <==> !(forall|k: int|
            i <= k < p.1 ==> !(s[k] == 0x2e || s[k] == 0x65 || s[k] == 0x45))),
{
    lemma_scan_number_classification(s, i, NumState::Start, true);
}

/// Inserting a well-formed value into well-formed entries keeps every
/// stored value well-formed.
proof fn lemma_obj_insert_wf_values(entries: Seq<(Seq<u8>, SpecValue)>, key: Seq<u8>, v: SpecValue)
    requires
        forall|q: int| 0 <= q < entries.len() ==> spec_value_wf((#[trigger] entries[q]).1),
        spec_value_wf(v),
    ensures
        forall|q: int|
            0 <= q < spec_obj_insert(entries, key, v).len() ==> spec_value_wf(
                (#[trigger] spec_obj_insert(entries, key, v)[q]).1,
            ),
{
    lemma_obj_find(entries, key);
}

/// Every value the parser produces is well-formed: in particular, the keys
/// of every object in the tree are pairwise distinct.
pub proof fn lemma_parse_value_wf(s: Seq<u8>, i: int)
    requires
        0 <= i,
    ensures
        spec_parse_value(s, i) matches Ok(p) ==> spec_value_wf(p.0),
    decreases s.len() - i, 2int,
{
    if 0 <= i < s.len() {
        let b = s[i];
        if b == 0x5b {
            lemma_parse_array_wf(s, i);
        } else if b == 0x7b {
            lemma_parse_object_wf(s, i);
        }
    }
}

/// A parsed array is well-formed.
pub proof fn lemma_parse_array_wf(s: Seq<u8>, i: int)
    requires
        0 <= i,
    ensures
        spec_parse_array(s, i) matches Ok(p) ==> spec_value_wf(p.0),
    decreases s.len() - i, 1int,
{
    if 0 <= i < s.len() && s[i] == 0x5b {
        lemma_array_items_wf(s, i + 1, seq![]);
    }
}

/// A parsed object is well-formed.
pub proof fn lemma_parse_object_wf(s: Seq<u8>, i: int)
    requires
        0 <= i,
    ensures
        spec_parse_object(s, i) matches Ok(p) ==> spec_value_wf(p.0),
    decreases s.len() - i, 1int,
{
    if 0 <= i < s.len() && s[i] == 0x7b {
        lemma_object_items_wf(s, i + 1, seq![]);
    }
}

/// The array element loop keeps its accumulator well-formed.
proof fn lemma_array_items_wf(s: Seq<u8>, i: int, acc: Seq<SpecValue>)
    requires
        0 <= i,
        forall|q: int| 0 <= q < acc.len() ==> spec_value_wf(#[trigger] acc[q]),
    ensures
        spec_parse_array_items(s, i, acc) matches Ok(p) ==> spec_value_wf(p.0),
    decreases s.len() - i, 3int,
{
    lemma_skip_ws(s, i);
    let j = skip_ws(s, i);
    if 0 <= j < s.len() && !(s[j] == 0x5d || s[j] == 0x2c) {
        lemma_parse_value_advances(s, j);
        lemma_parse_value_wf(s, j);
        match spec_parse_value(s, j) {
            Ok(p) => {
                let m = clamp_min(j + 1, p.1);
                lemma_skip_ws(s, m);
                let m2 = skip_ws(s, m);
                if m2 < s.len() && s[m2] == 0x2c {
                    lemma_array_items_wf(s, m2 + 1, acc.push(p.0));
                }
            },
            Err(_) => {},
        }
    }
}

/// The object member loop keeps its accumulator well-formed: unique keys
/// and well-formed values.
proof fn lemma_object_items_wf(s: Seq<u8>, i: int, acc: Seq<(Seq<u8>, SpecValue)>)
    requires
        0 <= i,
        obj_keys_unique(acc),
        forall|q: int| 0 <= q < acc.len() ==> spec_value_wf((#[trigger] acc[q]).1),
    ensures
        spec_parse_object_items(s, i, acc) matches Ok(p) ==> spec_value_wf(p.0),
    decreases s.len() - i, 3int,
{
    lemma_skip_ws(s, i);
    let j = skip_ws(s, i);
    if 0 <= j < s.len() && s[j] == 0x22 {
        lemma_parse_string_advance(s, j);
        match spec_parse_string(s, j) {
            Ok(kp) => {
                lemma_skip_ws(s, kp.1);
                let m2 = skip_ws(s, kp.1);
                if m2 < s.len() && s[m2] == 0x3a {
                    lemma_skip_ws(s, m2 + 1);
                    let m3 = skip_ws(s, m2 + 1);
                    lemma_parse_value_advances(s, m3);
                    lemma_parse_value_wf(s, m3);
                    match spec_parse_value(s, m3) {
                        Ok(p) => {
                            let acc2 = spec_obj_insert(acc, kp.0, p.0);
                            crate::value::lemma_obj_insert_properties(acc, kp.0, p.0);
                            lemma_obj_insert_wf_values(acc, kp.0, p.0);
                            let m4 = clamp_min(m3 + 1, p.1);
                            lemma_skip_ws(s, m4);
                            let m5 = skip_ws(s, m4);
                            if m5 < s.len() && s[m5] == 0x2c {
                                lemma_object_items_wf(s, m5 + 1, acc2);
                            }
                        },
                        Err(_) => {},
                    }
                }
            },
            Err(_) => {},
        }
    }
}

/// A complete document parses to a well-formed tree: every object in it has
/// pairwise-distinct keys.
pub proof fn lemma_parse_text_wf(s: Seq<u8>)
    ensures
        spec_parse_text(s) matches Ok(v) ==> spec_value_wf(v),
{
    lemma_skip_ws(s, 0);
    lemma_parse_value_wf(s, skip_ws(s, 0));
}

} // verus!
