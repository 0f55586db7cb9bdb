//! The executable recursive-descent parser, proved against [`crate::grammar`].

use vstd::prelude::*;
use vstd::string::StringSliceAdditionalSpecFns;

use crate::error::ParseError;
use crate::grammar::NumState;
use crate::grammar::dec_digits_value;
use crate::grammar::fits_i64;
use crate::grammar::hex_digit_value;
use crate::grammar::int_digits_of;
use crate::grammar::int_token_value;
use crate::grammar::is_digit;
use crate::grammar::is_int_token;
use crate::grammar::lemma_dec_digits_prefix;
use crate::grammar::lemma_parse_string_advance;
use crate::grammar::lemma_parse_value_advances;
use crate::grammar::lemma_scan_int_token;
use crate::grammar::lemma_scan_number_basic;
use crate::grammar::lemma_scan_string_basic;
use crate::grammar::lemma_skip_ws;
use crate::grammar::lit_false;
use crate::grammar::lit_null;
use crate::grammar::lit_true;
use crate::grammar::matches_at;
use crate::grammar::skip_ws;
use crate::grammar::spec_hex4;
use crate::grammar::spec_parse_array;
use crate::grammar::spec_parse_array_items;
use crate::grammar::spec_parse_number;
use crate::grammar::spec_parse_object;
use crate::grammar::spec_parse_object_items;
use crate::grammar::spec_parse_string;
use crate::grammar::spec_parse_text;
use crate::grammar::spec_parse_value;
use crate::grammar::spec_scan_number;
use crate::grammar::spec_scan_string;
use crate::grammar::spec_unescape;
use crate::grammar::unescaped_byte;
use crate::value::Number;
use crate::value::SpecNumber;
use crate::value::SpecValue;
use crate::value::Value;
use crate::value::ValueMap;
use crate::value::spec_values_view;

verus! {

/// Converts one hexadecimal digit byte into its value.
pub fn hex_value(b: u8) -> (r: Option<u16>)
    ensures
        r == hex_digit_value(b),
{
    if 0x30 <= b && b <= 0x39 {
        Some((b - 0x30) as u16)
    } else if 0x61 <= b && b <= 0x66 {
        Some((b - 0x57) as u16)
    } else if 0x41 <= b && b <= 0x46 {
        Some((b - 0x37) as u16)
    } else {
        None
    }
}

/// Decodes the escape sequences in a raw (still-escaped) string body,
/// returning the decoded bytes; see [`spec_unescape`] for the exact
/// statement, including which escapes are rejected and how.
#[verifier::rlimit(60)]
pub fn unescape_string(s: &[u8]) -> (r: Result<Vec<u8>, ParseError>)
    ensures
        match r {
            Ok(v) => spec_unescape(s@) == Ok::<Seq<u8>, ParseError>(v@),
            Err(e) => spec_unescape(s@) == Err::<Seq<u8>, ParseError>(e),
        },
{
    let mut buf: Vec<u8> = Vec::new();
    let mut i: usize = 0;
    proof {
        assert(s@.skip(0) =~= s@);
    }
    loop
        invariant
            i <= s@.len(),
            match spec_unescape(s@.skip(i as int)) {
                Ok(t) => spec_unescape(s@) == Ok::<Seq<u8>, ParseError>(buf@ + t),
                Err(e) => spec_unescape(s@) == Err::<Seq<u8>, ParseError>(e),
            },
        decreases s@.len() - i,
    {
        let ghost pre = s@.skip(i as int);
        let ghost buf0 = buf@;
        if i >= s.len() {
            proof {
                assert(pre =~= Seq::<u8>::empty());
                assert(buf@ + pre =~= buf@);
            }
            return Ok(buf);
        }
        let b = s[i];
        if b != 0x5c {
            buf.push(b);
            i = i + 1;
            proof {
                assert(pre[0] == b);
                assert(pre.skip(1) =~= s@.skip(i as int));
                match spec_unescape(s@.skip(i as int)) {
                    Ok(t) => {
                        assert(buf@ + t =~= buf0 + (seq![b] + t));
                    },
                    Err(_) => {},
                }
            }
        } else if i + 1 >= s.len() {
            proof {
                assert(pre.len() == 1);
            }
            return Err(ParseError::UnexpectedEOF);
        } else {
            let e = s[i + 1];
            proof {
                assert(pre.len() >= 2);
                assert(pre[0] == 0x5c && pre[1] == e);
            }
            if e == 0x75 {
                // \u followed by exactly four hexadecimal digits
                let ghost hexpart = pre.skip(2);
                proof {
                    assert(hexpart =~= s@.skip(i + 2));
                    assert(forall|q: int| 0 <= q < hexpart.len() ==> hexpart[q] == s@[i + 2 + q]);
                }
                if i + 2 >= s.len() {
                    proof {
                        assert(hexpart.len() == 0);
                    }
                    return Err(ParseError::UnexpectedEOF);
                }
                let h0 = match hex_value(s[i + 2]) {
                    Some(x) => x,
                    None => {
                        return Err(ParseError::InvalidHex);
                    },
                };
                if i + 3 >= s.len() {
                    proof {
                        assert(hexpart.len() == 1);
                    }
                    return Err(ParseError::UnexpectedEOF);
                }
                let h1 = match hex_value(s[i + 3]) {
                    Some(x) => x,
                    None => {
                        return Err(ParseError::InvalidHex);
                    },
                };
                if i + 4 >= s.len() {
                    proof {
                        assert(hexpart.len() == 2);
                    }
                    return Err(ParseError::UnexpectedEOF);
                }
                let h2 = match hex_value(s[i + 4]) {
                    Some(x) => x,
                    None => {
                        return Err(ParseError::InvalidHex);
                    },
                };
                if i + 5 >= s.len() {
                    proof {
                        assert(hexpart.len() == 3);
                    }
                    return Err(ParseError::UnexpectedEOF);
                }
                let h3 = match hex_value(s[i + 5]) {
                    Some(x) => x,
                    None => {
                        return Err(ParseError::InvalidHex);
                    },
                };
                let v: u16 = ((h0 * 16 + h1) * 16 + h2) * 16 + h3;
                proof {
                    assert(spec_hex4(hexpart) == Ok::<u16, ParseError>(v));
                }
                if 0xd800 <= v && v <= 0xdfff {
                    return Err(ParseError::InvalidEscapeSequence);
                }
                // UTF-8 encode the scalar (at most three bytes for a 16-bit value)
                let ghost enc = vstd::utf8::encode_scalar(v as u32);
                if v < 0x80 {
                    buf.push(v as u8);
                    proof {
                        assert((v as u32 & 0x7f) as u8 == v as u8) by (bit_vector)
                            requires
                                v < 0x80,
                        ;
                        assert(enc =~= seq![v as u8]);
                        assert(buf@ =~= buf0 + enc);
                    }
                } else if v < 0x800 {
                    buf.push(0xc0 | (v >> 6) as u8);
                    buf.push(0x80 | (v & 0x3f) as u8);
                    proof {
                        assert(0xc0 | ((v as u32 >> 6) & 0x1f) as u8 == 0xc0 | (v >> 6) as u8
                            && 0x80 | (v as u32 & 0x3f) as u8 == 0x80 | (v & 0x3f) as u8)
                            by (bit_vector)
                            requires
                                0x80 <= v < 0x800,
                        ;
                        assert(enc =~= seq![0xc0 | (v >> 6) as u8, 0x80 | (v & 0x3f) as u8]);
                        assert(buf@ =~= buf0 + enc);
                    }
                } else {
                    buf.push(0xe0 | (v >> 12) as u8);
                    buf.push(0x80 | ((v >> 6) & 0x3f) as u8);
                    buf.push(0x80 | (v & 0x3f) as u8);
                    proof {
                        assert(0xe0 | ((v as u32 >> 12) & 0x0f) as u8 == 0xe0 | (v >> 12) as u8
                            && 0x80 | ((v as u32 >> 6) & 0x3f) as u8 == 0x80 | ((v >> 6)
                            & 0x3f) as u8 && 0x80 | (v as u32 & 0x3f) as u8 == 0x80 | (v
                            & 0x3f) as u8) by (bit_vector)
                            requires
                                0x800 <= v,
                        ;
                        assert(enc =~= seq![
                            0xe0 | (v >> 12) as u8,
                            0x80 | ((v >> 6) & 0x3f) as u8,
                            0x80 | (v & 0x3f) as u8,
                        ]);
                        assert(buf@ =~= buf0 + enc);
                    }
                }
                i = i + 6;
                proof {
                    assert(pre.skip(6) =~= s@.skip(i as int));
                    match spec_unescape(s@.skip(i as int)) {
                        Ok(t) => {
                            assert(buf@ + t =~= buf0 + (enc + t));
                        },
                        Err(_) => {},
                    }
                }
            } else {
                let out = if e == 0x66 {
                    0x0c
                } else if e == 0x62 {
                    0x08
                } else if e == 0x6e {
                    0x0a
                } else if e == 0x72 {
                    0x0d
                } else if e == 0x74 {
                    0x09
                } else {
                    e
                };
                buf.push(out);
                i = i + 2;
                proof {
                    assert(out == unescaped_byte(e));
                    assert(pre.skip(2) =~= s@.skip(i as int));
                    match spec_unescape(s@.skip(i as int)) {
                        Ok(t) => {
                            assert(buf@ + t =~= buf0 + (seq![unescaped_byte(e)] + t));
                        },
                        Err(_) => {},
                    }
                }
            }
        }
    }
}

/// Converts a validated integer literal (`sign? digits`) into an `i64`,
/// reporting the literals that do not fit.
fn parse_i64_token(t: &[u8]) -> (r: Result<i64, ParseError>)
    requires
        is_int_token(t@),
    ensures
        match r {
            Ok(v) => fits_i64(int_token_value(t@)) && v as int == int_token_value(t@),
            Err(e) => e == ParseError::ParseIntError && !fits_i64(int_token_value(t@)),
        },
{
    let neg = t[0] == 0x2d;
    let d0: usize = if t[0] == 0x2d || t[0] == 0x2b {
        1
    } else {
        0
    };
    let ghost digits = t@.skip(d0 as int);
    proof {
        if d0 == 0 {
            assert(t@.skip(0) =~= t@);
        }
        assert(digits == int_digits_of(t@));
        assert(forall|k: int| 0 <= k < digits.len() ==> is_digit(#[trigger] digits[k]));
        assert(forall|k: int| 0 <= k < digits.len() ==> digits[k] == t@[d0 + k]);
        if neg {
            assert(int_token_value(t@) == -dec_digits_value(digits));
        } else {
            assert(int_token_value(t@) == dec_digits_value(digits));
        }
    }
    let limit: u64 = if neg {
        9223372036854775808
    } else {
        9223372036854775807
    };
    let mut mag: u64 = 0;
    let mut k: usize = d0;
    proof {
        assert(t@.subrange(d0 as int, d0 as int) =~= Seq::<u8>::empty());
    }
    while k < t.len()
        invariant
            d0 <= k <= t@.len(),
            d0 == 0 || d0 == 1,
            t@.len() > 0,
            neg == (t@[0] == 0x2d),
            int_token_value(t@) == if neg {
                -dec_digits_value(digits)
            } else {
                dec_digits_value(digits)
            },
            digits == t@.skip(d0 as int),
            forall|q: int| 0 <= q < digits.len() ==> is_digit(#[trigger] digits[q]),
            forall|q: int| 0 <= q < digits.len() ==> digits[q] == t@[d0 + q],
            limit == if neg {
                0x8000_0000_0000_0000u64
            } else {
                0x7fff_ffff_ffff_ffffu64
            },
            mag == dec_digits_value(t@.subrange(d0 as int, k as int)),
            mag <= limit,
        decreases t@.len() - k,
    {
        let ghost prefix = t@.subrange(d0 as int, k as int);
        let ghost prefix1 = t@.subrange(d0 as int, k as int + 1);
        proof {
            assert(digits[k - d0] == t@[k as int]);
            assert(prefix1.drop_last() =~= prefix);
            assert(dec_digits_value(prefix1) == mag * 10 + (t@[k as int] - 0x30));
        }
        let d = t[k] - 0x30;
        if mag > limit / 10 || (mag == limit / 10 && (d as u64) > limit % 10) {
            proof {
                assert(dec_digits_value(prefix1) > limit);
                assert(prefix1 =~= digits.take(k + 1 - d0));
                lemma_dec_digits_prefix(digits, k + 1 - d0);
                assert(dec_digits_value(digits) > limit);
            }
            return Err(ParseError::ParseIntError);
        }
        mag = mag * 10 + (d as u64);
        k = k + 1;
    }
    proof {
        assert(t@.subrange(d0 as int, t@.len() as int) =~= digits);
        assert(mag == dec_digits_value(digits));
    }
    if neg {
        if mag == 9223372036854775808 {
            Ok(i64::MIN)
        } else {
            Ok(-(mag as i64))
        }
    } else {
        Ok(mag as i64)
    }
}

/// The byte-cursor scanner: the full input and a byte offset into it.
#[derive(Debug, Clone, Copy)]
pub struct Parser<'a> {
    /// The complete input text, as bytes.
    pub source: &'a [u8],
    /// The current byte offset.
    pub index: usize,
}

impl<'a> Parser<'a> {
    /// The cursor never stands past the end of the input.
    pub open spec fn wf(self) -> bool {
        self.index <= self.source@.len()
    }

    /// Creates a parser over `source`, at offset zero.
    pub fn new(source: &'a [u8]) -> (r: Parser<'a>)
        ensures
            r.wf(),
            r.source@ == source@,
            r.index == 0,
    {
        Parser { source, index: 0 }
    }

    /// Whether the cursor stands at the end of the input.
    pub fn is_eof(&self) -> (r: bool)
        ensures
            r == (self.index >= self.source@.len()),
    {
        self.index >= self.source.len()
    }

    /// The next byte, without consuming it.
    pub fn peek(&self) -> (r: Option<u8>)
        ensures
            match r {
                Some(b) => self.index < self.source@.len() && b == self.source@[self.index as int],
                None => self.index >= self.source@.len(),
            },
    {
        if self.index < self.source.len() {
            Some(self.source[self.index])
        } else {
            None
        }
    }

    /// Consumes the next byte, returning it with its pre-consumption index.
    pub fn indexed_next(&mut self) -> (r: Option<(usize, u8)>)
        ensures
            final(self).source == old(self).source,
            match r {
                Some(p) => old(self).index < old(self).source@.len() && p.0 == old(self).index
                    && p.1 == old(self).source@[old(self).index as int] && final(self).index == old(
                    self,
                ).index + 1,
                None => old(self).index >= old(self).source@.len() && final(self).index == old(
                    self,
                ).index,
            },
    {
        if self.index < self.source.len() {
            let r = Some((self.index, self.source[self.index]));
            self.index = self.index + 1;
            r
        } else {
            None
        }
    }

    /// Consumes the next byte.
    pub fn next(&mut self) -> (r: Option<u8>)
        ensures
            final(self).source == old(self).source,
            match r {
                Some(b) => old(self).index < old(self).source@.len() && b == old(self).source@[old(
                    self,
                ).index as int] && final(self).index == old(self).index + 1,
                None => old(self).index >= old(self).source@.len() && final(self).index == old(
                    self,
                ).index,
            },
    {
        if self.index < self.source.len() {
            let r = Some(self.source[self.index]);
            self.index = self.index + 1;
            r
        } else {
            None
        }
    }

    /// Advances the cursor by `step` bytes (never past the end).
    pub fn advance(&mut self, step: usize)
        requires
            old(self).index + step <= old(self).source@.len(),
        ensures
            final(self).source == old(self).source,
            final(self).index == old(self).index + step,
    {
        let n = self.source.len();
        assert(self.index + step <= n);
        self.index = self.index + step;
    }

    /// Steps the cursor back one byte, used only to un-consume a terminator
    /// byte that belongs to the next token; at offset zero it stays put.
    pub fn rewind(&mut self)
        ensures
            final(self).source == old(self).source,
            final(self).index == if old(self).index > 0 {
                (old(self).index - 1) as int
            } else {
                0
            },
    {
        if self.index > 0 {
            self.index = self.index - 1;
        }
    }

    /// Whether `text` occurs in the input at the cursor.
    pub fn matches(&self, text: &[u8]) -> (r: bool)
        ensures
            r == matches_at(self.source@, self.index as int, text@),
    {
        if self.index > self.source.len() || text.len() > self.source.len() - self.index {
            proof {
                assert(!matches_at(self.source@, self.index as int, text@));
            }
            return false;
        }
        let mut k: usize = 0;
        loop
            invariant
                k <= text@.len(),
                self.source@.len() <= usize::MAX,
                self.index + text@.len() <= self.source@.len(),
                forall|q: int|
                    0 <= q < k ==> self.source@[self.index + q] == #[trigger] text@[q],
            decreases text@.len() - k,
        {
            if k >= text.len() {
                proof {
                    assert(self.source@.subrange(
                        self.index as int,
                        self.index + text@.len(),
                    ) =~= text@);
                }
                return true;
            }
            if self.source[self.index + k] != text[k] {
                proof {
                    let sub = self.source@.subrange(self.index as int, self.index + text@.len());
                    assert(sub[k as int] != text@[k as int]);
                }
                return false;
            }
            k = k + 1;
        }
    }

    /// Parses the `null` keyword, leaving the cursor after it; any other
    /// text is rejected at the cursor, which then does not move.
    pub fn parse_null(&mut self) -> (r: Result<Value, ParseError>)
        requires
            old(self).wf(),
        ensures
            final(self).wf(),
            final(self).source == old(self).source,
            matches_at(old(self).source@, old(self).index as int, lit_null()) ==> r == Ok::<
                Value,
                ParseError,
            >(Value::Null) && final(self).index == old(self).index + 4,
            !matches_at(old(self).source@, old(self).index as int, lit_null()) ==> r == Err::<
                Value,
                ParseError,
            >(ParseError::InvalidCharacter(old(self).index)) && final(self).index == old(
                self,
            ).index,
    {
        let lit: [u8; 4] = [0x6e, 0x75, 0x6c, 0x6c];
        proof {
            assert(lit@ =~= lit_null());
        }
        if self.matches(&lit) {
            self.advance(4);
            Ok(Value::Null)
        } else {
            Err(ParseError::InvalidCharacter(self.index))
        }
    }

    /// Parses the `true` or `false` keyword, leaving the cursor after it;
    /// any other text is rejected at the cursor, which then does not move.
    pub fn parse_boolean(&mut self) -> (r: Result<bool, ParseError>)
        requires
            old(self).wf(),
        ensures
            final(self).wf(),
            final(self).source == old(self).source,
            matches_at(old(self).source@, old(self).index as int, lit_true()) ==> r == Ok::<
                bool,
                ParseError,
            >(true) && final(self).index == old(self).index + 4,
            !matches_at(old(self).source@, old(self).index as int, lit_true()) && matches_at(
                old(self).source@,
                old(self).index as int,
                lit_false(),
            ) ==> r == Ok::<bool, ParseError>(false) && final(self).index == old(self).index + 5,
            !matches_at(old(self).source@, old(self).index as int, lit_true()) && !matches_at(
                old(self).source@,
                old(self).index as int,
                lit_false(),
            ) ==> r == Err::<bool, ParseError>(ParseError::InvalidCharacter(old(self).index))
                && final(self).index == old(self).index,
    {
        let lit_t: [u8; 4] = [0x74, 0x72, 0x75, 0x65];
        let lit_f: [u8; 5] = [0x66, 0x61, 0x6c, 0x73, 0x65];
        proof {
            assert(lit_t@ =~= lit_true());
            assert(lit_f@ =~= lit_false());
        }
        if self.matches(&lit_t) {
            self.advance(4);
            Ok(true)
        } else if self.matches(&lit_f) {
            self.advance(5);
            Ok(false)
        } else {
            Err(ParseError::InvalidCharacter(self.index))
        }
    }

    /// Parses a numeric literal with the state machine, leaving the cursor
    /// on the terminator byte (or at the end of the input); see
    /// [`spec_parse_number`] for the exact statement.
    pub fn parse_number(&mut self) -> (r: Result<Number, ParseError>)
        requires
            old(self).wf(),
        ensures
            final(self).wf(),
            final(self).source == old(self).source,
            match r {
                Ok(n) => spec_parse_number(old(self).source@, old(self).index as int) == Ok::<
                    (SpecNumber, int),
                    ParseError,
                >((n.view(), final(self).index as int)),
                Err(e) => spec_parse_number(old(self).source@, old(self).index as int) == Err::<
                    (SpecNumber, int),
                    ParseError,
                >(e),
            },
            old(self).index as int >= old(self).source@.len() ==> final(self).index == old(
                self,
            ).index,
            (old(self).index as int) < old(self).source@.len() && !(old(self).source@[old(
                self,
            ).index as int] == 0x2b || old(self).source@[old(self).index as int] == 0x2d
                || is_digit(old(self).source@[old(self).index as int])) ==> final(self).index
                == old(self).index + 1,
    {
        let ghost s = old(self).source@;
        let ghost i0 = old(self).index as int;
        let start = self.index;
        let mut st = NumState::Start;
        let mut is_int = true;
        loop
            invariant_except_break
                self.wf(),
                self.source == old(self).source,
                start == old(self).index,
                i0 <= self.index as int <= s.len(),
                s == self.source@,
                i0 == start as int,
                st == NumState::Start ==> self.index == i0,
                st != NumState::Start ==> self.index > i0,
                spec_scan_number(s, i0, NumState::Start, true) == spec_scan_number(
                    s,
                    self.index as int,
                    st,
                    is_int,
                ),
            ensures
                self.wf(),
                self.source == old(self).source,
                start == old(self).index,
                i0 <= self.index as int <= s.len(),
                s == self.source@,
                spec_scan_number(s, i0, NumState::Start, true) == Ok::<(int, bool), ParseError>(
                    (self.index as int, is_int),
                ),
            decreases s.len() - self.index,
        {
            match self.indexed_next() {
                None => {
                    match st {
                        NumState::AfterZero => break ,
                        NumState::IntegerPart => break ,
                        NumState::FractionalPart => break ,
                        NumState::ExponentPart => break ,
                        _ => {
                            return Err(ParseError::InvalidCharacter(self.index));
                        },
                    }
                },
                Some((idx, b)) => {
                    let is_term = b == 0x7d || b == 0x5d || b == 0x2c || b == 0x20 || b == 0x09
                        || b == 0x0a || b == 0x0c || b == 0x0d;
                    match st {
                        NumState::Start => {
                            if b == 0x2b || b == 0x2d {
                                st = NumState::AfterSign;
                            } else if b == 0x30 {
                                st = NumState::AfterZero;
                            } else if 0x31 <= b && b <= 0x39 {
                                st = NumState::IntegerPart;
                            } else {
                                return Err(ParseError::InvalidCharacter(idx));
                            }
                        },
                        NumState::AfterSign => {
                            if b == 0x30 {
                                st = NumState::AfterZero;
                            } else if 0x31 <= b && b <= 0x39 {
                                st = NumState::IntegerPart;
                            } else {
                                return Err(ParseError::InvalidCharacter(idx));
                            }
                        },
                        NumState::AfterZero => {
                            if b == 0x2e {
                                st = NumState::AfterDecimalPoint;
                                is_int = false;
                            } else if b == 0x65 || b == 0x45 {
                                st = NumState::AfterExponent;
                                is_int = false;
                            } else if is_term {
                                self.rewind();
                                break ;
                            } else {
                                return Err(ParseError::InvalidCharacter(idx));
                            }
                        },
                        NumState::IntegerPart => {
                            if 0x30 <= b && b <= 0x39 {
                            } else if b == 0x2e {
                                st = NumState::AfterDecimalPoint;
                                is_int = false;
                            } else if b == 0x65 || b == 0x45 {
                                st = NumState::AfterExponent;
                                is_int = false;
                            } else if is_term {
                                self.rewind();
                                break ;
                            } else {
                                return Err(ParseError::InvalidCharacter(idx));
                            }
                        },
                        NumState::AfterDecimalPoint => {
                            if 0x30 <= b && b <= 0x39 {
                                st = NumState::FractionalPart;
                            } else {
                                return Err(ParseError::InvalidCharacter(idx));
                            }
                        },
                        NumState::FractionalPart => {
                            if 0x30 <= b && b <= 0x39 {
                            } else if b == 0x65 || b == 0x45 {
                                st = NumState::AfterExponent;
                            } else if is_term {
                                self.rewind();
                                break ;
                            } else {
                                return Err(ParseError::InvalidCharacter(idx));
                            }
                        },
                        NumState::AfterExponent => {
                            if b == 0x2b || b == 0x2d {
                                st = NumState::AfterExponentSign;
                            } else if 0x30 <= b && b <= 0x39 {
                                st = NumState::ExponentPart;
                            } else {
                                return Err(ParseError::InvalidCharacter(idx));
                            }
                        },
                        NumState::AfterExponentSign => {
                            if 0x30 <= b && b <= 0x39 {
                                st = NumState::ExponentPart;
                            } else {
                                return Err(ParseError::InvalidCharacter(idx));
                            }
                        },
                        NumState::ExponentPart => {
                            if 0x30 <= b && b <= 0x39 {
                            } else if is_term {
                                self.rewind();
                                break ;
                            } else {
                                return Err(ParseError::InvalidCharacter(idx));
                            }
                        },
                    }
                },
            }
        }
        let end = self.index;
        proof {
            lemma_scan_number_basic(s, i0, NumState::Start, true);
        }
        let tok = vstd::slice::slice_subrange(self.source, start, end);
        if is_int {
            proof {
                lemma_scan_int_token(s, i0);
            }
            match parse_i64_token(tok) {
                Ok(v) => Ok(Number::Int(v)),
                Err(e) => Err(e),
            }
        } else {
            Ok(Number::Float(vstd::slice::slice_to_vec(tok)))
        }
    }

    /// Parses a quoted string, leaving the cursor after the closing quote
    /// and returning the decoded body; see [`spec_parse_string`] for the
    /// exact statement.
    pub fn parse_string(&mut self) -> (r: Result<Vec<u8>, ParseError>)
        requires
            old(self).wf(),
        ensures
            final(self).wf(),
            final(self).source == old(self).source,
            match r {
                Ok(v) => spec_parse_string(old(self).source@, old(self).index as int) == Ok::<
                    (Seq<u8>, int),
                    ParseError,
                >((v@, final(self).index as int)),
                Err(e) => spec_parse_string(old(self).source@, old(self).index as int) == Err::<
                    (Seq<u8>, int),
                    ParseError,
                >(e),
            },
            old(self).index as int >= old(self).source@.len() ==> final(self).index == old(
                self,
            ).index,
            (old(self).index as int) < old(self).source@.len() && old(self).source@[old(
                self,
            ).index as int] != 0x22 ==> final(self).index == old(self).index,
    {
        let ghost s = old(self).source@;
        let ghost i0 = old(self).index as int;
        match self.peek() {
            None => {
                return Err(ParseError::UnexpectedEOF);
            },
            Some(b) => {
                if b != 0x22 {
                    return Err(ParseError::InvalidCharacter(self.index));
                }
                self.next();
            },
        }
        let body_start = self.index;
        loop
            invariant_except_break
                self.wf(),
                self.source == old(self).source,
                s == self.source@,
                i0 == old(self).index,
                0 <= i0 < s.len() && s[i0] == 0x22,
                body_start == i0 + 1,
                body_start <= self.index,
                spec_scan_string(s, i0 + 1, i0 + 1) == spec_scan_string(
                    s,
                    i0 + 1,
                    self.index as int,
                ),
            ensures
                self.wf(),
                self.source == old(self).source,
                s == self.source@,
                i0 == old(self).index,
                0 <= i0 < s.len() && s[i0] == 0x22,
                body_start == i0 + 1,
                self.index >= body_start + 1,
                spec_scan_string(s, i0 + 1, i0 + 1) == Ok::<int, ParseError>(self.index - 1),
            decreases s.len() + 2 - self.index,
        {
            match self.indexed_next() {
                None => {
                    return Err(ParseError::UnexpectedEOFWhileParsingString(body_start));
                },
                Some((idx, b)) => {
                    if b == 0x0a || b == 0x0d {
                        return Err(ParseError::LineBreakWhileParsingString(idx));
                    } else if b == 0x22 {
                        break ;
                    } else if b == 0x5c {
                        if !self.is_eof() {
                            self.advance(1);
                        }
                        proof {
                            assert(spec_scan_string(s, i0 + 1, idx as int) == spec_scan_string(
                                s,
                                i0 + 1,
                                idx + 2,
                            ));
                            if idx + 1 >= s.len() {
                                assert(spec_scan_string(s, i0 + 1, idx + 2)
                                    == spec_scan_string(s, i0 + 1, idx + 1));
                            }
                        }
                    } else {
                        proof {
                            assert(spec_scan_string(s, i0 + 1, idx as int) == spec_scan_string(
                                s,
                                i0 + 1,
                                idx + 1,
                            ));
                        }
                    }
                },
            }
        }
        let qidx = self.index - 1;
        proof {
            lemma_scan_string_basic(s, i0 + 1, i0 + 1);
        }
        let raw = vstd::slice::slice_subrange(self.source, body_start, qidx);
        match unescape_string(raw) {
            Ok(v) => Ok(v),
            Err(e) => Err(e),
        }
    }

    /// Parses one JSON value, dispatching on the next byte; see
    /// [`spec_parse_value`] for the exact statement.
    pub fn parse_value(&mut self) -> (r: Result<Value, ParseError>)
        requires
            old(self).wf(),
        ensures
            final(self).wf(),
            final(self).source == old(self).source,
            match r {
                Ok(v) => spec_parse_value(old(self).source@, old(self).index as int) == Ok::<
                    (SpecValue, int),
                    ParseError,
                >((v.view(), final(self).index as int)),
                Err(e) => spec_parse_value(old(self).source@, old(self).index as int) == Err::<
                    (SpecValue, int),
                    ParseError,
                >(e),
            },
            old(self).index as int >= old(self).source@.len() ==> final(self).index == old(
                self,
            ).index,
        decreases self.source@.len() - self.index, 2int,
    {
        match self.peek() {
            None => Err(ParseError::UnexpectedEOF),
            Some(b) => {
                if b == 0x6e {
                    match self.parse_null() {
                        Ok(v) => Ok(v),
                        Err(e) => Err(e),
                    }
                } else if b == 0x74 || b == 0x66 {
                    match self.parse_boolean() {
                        Ok(v) => Ok(Value::Boolean(v)),
                        Err(e) => Err(e),
                    }
                } else if b == 0x2b || b == 0x2d || (0x30 <= b && b <= 0x39) {
                    match self.parse_number() {
                        Ok(n) => Ok(Value::Number(n)),
                        Err(e) => Err(e),
                    }
                } else if b == 0x22 {
                    match self.parse_string() {
                        Ok(v) => Ok(Value::String(v)),
                        Err(e) => Err(e),
                    }
                } else if b == 0x5b {
                    match self.parse_array() {
                        Ok(a) => Ok(Value::Array(a)),
                        Err(e) => Err(e),
                    }
                } else if b == 0x7b {
                    match self.parse_object() {
                        Ok(m) => Ok(Value::Object(m)),
                        Err(e) => Err(e),
                    }
                } else {
                    Err(ParseError::InvalidCharacter(self.index))
                }
            },
        }
    }

    /// Parses a JSON array (`[`, comma-separated values, `]`); see
    /// [`spec_parse_array`] for the exact statement, including which stray
    /// commas and closers are rejected.
    pub fn parse_array(&mut self) -> (r: Result<Vec<Value>, ParseError>)
        requires
            old(self).wf(),
        ensures
            final(self).wf(),
            final(self).source == old(self).source,
            match r {
                Ok(a) => spec_parse_array(old(self).source@, old(self).index as int) == Ok::<
                    (SpecValue, int),
                    ParseError,
                >((SpecValue::Array(spec_values_view(a@)), final(self).index as int)),
                Err(e) => spec_parse_array(old(self).source@, old(self).index as int) == Err::<
                    (SpecValue, int),
                    ParseError,
                >(e),
            },
            old(self).index as int >= old(self).source@.len() ==> final(self).index == old(
                self,
            ).index,
            (old(self).index as int) < old(self).source@.len() && old(self).source@[old(
                self,
            ).index as int] != 0x5b ==> final(self).index == old(self).index + 1,
        decreases self.source@.len() - self.index, 1int,
    {
        let ghost s = old(self).source@;
        let ghost i0 = old(self).index as int;
        match self.indexed_next() {
            None => {
                return Err(ParseError::UnexpectedEOF);
            },
            Some(p) => {
                if p.1 != 0x5b {
                    return Err(ParseError::InvalidCharacter(p.0));
                }
            },
        }
        let mut arr: Vec<Value> = Vec::new();
        let ghost mut cur: int = i0 + 1;
        proof {
            crate::value::lemma_values_view(arr@);
            assert(spec_values_view(arr@) =~= seq![]);
        }
        loop
            invariant
                self.wf(),
                self.source == old(self).source,
                s == self.source@,
                i0 == old(self).index,
                0 <= i0 < s.len() && s[i0] == 0x5b,
                i0 + 1 <= cur <= s.len(),
                cur == self.index as int,
                spec_parse_array(s, i0) == spec_parse_array_items(s, cur, spec_values_view(arr@)),
            decreases s.len() - cur,
        {
            self.eat_whitespace();
            let ghost j = self.index as int;
            proof {
                lemma_skip_ws(s, cur);
            }
            match self.peek() {
                None => {
                    return Err(ParseError::UnexpectedEOF);
                },
                Some(b) => {
                    if b == 0x5d && arr.len() == 0 {
                        proof {
                            crate::value::lemma_values_view(arr@);
                        }
                        self.advance(1);
                        return Ok(arr);
                    } else if b == 0x5d || b == 0x2c {
                        return Err(ParseError::UnexpectedCommaInArrayOrObject(self.index));
                    }
                },
            }
            let v = match self.parse_value() {
                Ok(v) => v,
                Err(e) => {
                    return Err(e);
                },
            };
            let ghost m = self.index as int;
            proof {
                lemma_parse_value_advances(s, j);
                lemma_skip_ws(s, m);
            }
            self.eat_whitespace();
            match self.indexed_next() {
                None => {
                    return Err(ParseError::UnexpectedEOF);
                },
                Some(p2) => {
                    if p2.1 == 0x5d {
                        let ghost prev = arr@;
                        arr.push(v);
                        proof {
                            assert(arr@.drop_last() =~= prev);
                            crate::value::lemma_values_view(prev);
                            crate::value::lemma_values_view(arr@);
                            assert(spec_values_view(arr@) =~= spec_values_view(prev).push(
                                v.view(),
                            ));
                        }
                        return Ok(arr);
                    } else if p2.1 == 0x2c {
                        let ghost prev = arr@;
                        arr.push(v);
                        proof {
                            assert(arr@.drop_last() =~= prev);
                            crate::value::lemma_values_view(prev);
                            crate::value::lemma_values_view(arr@);
                            assert(spec_values_view(arr@) =~= spec_values_view(prev).push(
                                v.view(),
                            ));
                            cur = p2.0 + 1;
                        }
                    } else {
                        return Err(ParseError::InvalidCharacter(p2.0));
                    }
                },
            }
        }
    }

    /// Parses a JSON object (`{`, comma-separated `"key": value` members,
    /// `}`); see [`spec_parse_object`] for the exact statement, including
    /// that a repeated key overwrites in place.
    pub fn parse_object(&mut self) -> (r: Result<ValueMap, ParseError>)
        requires
            old(self).wf(),
        ensures
            final(self).wf(),
            final(self).source == old(self).source,
            match r {
                Ok(m) => spec_parse_object(old(self).source@, old(self).index as int) == Ok::<
                    (SpecValue, int),
                    ParseError,
                >((SpecValue::Object(m.view()), final(self).index as int)),
                Err(e) => spec_parse_object(old(self).source@, old(self).index as int) == Err::<
                    (SpecValue, int),
                    ParseError,
                >(e),
            },
            old(self).index as int >= old(self).source@.len() ==> final(self).index == old(
                self,
            ).index,
            (old(self).index as int) < old(self).source@.len() && old(self).source@[old(
                self,
            ).index as int] != 0x7b ==> final(self).index == old(self).index + 1,
        decreases self.source@.len() - self.index, 1int,
    {
        let ghost s = old(self).source@;
        let ghost i0 = old(self).index as int;
        match self.indexed_next() {
            None => {
                return Err(ParseError::UnexpectedEOF);
            },
            Some(p) => {
                if p.1 != 0x7b {
                    return Err(ParseError::InvalidCharacter(p.0));
                }
            },
        }
        let mut map = ValueMap::new();
        let ghost mut cur: int = i0 + 1;
        loop
            invariant
                self.wf(),
                self.source == old(self).source,
                s == self.source@,
                i0 == old(self).index,
                0 <= i0 < s.len() && s[i0] == 0x7b,
                i0 + 1 <= cur <= s.len(),
                cur == self.index as int,
                spec_parse_object(s, i0) == spec_parse_object_items(s, cur, map.view()),
            decreases s.len() - cur,
        {
            self.eat_whitespace();
            let ghost j = self.index as int;
            proof {
                lemma_skip_ws(s, cur);
            }
            match self.peek() {
                None => {
                    return Err(ParseError::UnexpectedEOF);
                },
                Some(b) => {
                    if b == 0x7d && map.is_empty() {
                        self.next();
                        return Ok(map);
                    } else if b == 0x7d || b == 0x2c {
                        return Err(ParseError::UnexpectedCommaInArrayOrObject(self.index));
                    } else if b != 0x22 {
                        return Err(ParseError::InvalidCharacter(self.index));
                    }
                },
            }
            let key = match self.parse_string() {
                Ok(k) => k,
                Err(e) => {
                    return Err(e);
                },
            };
            let ghost mk = self.index as int;
            proof {
                lemma_parse_string_advance(s, j);
                lemma_skip_ws(s, mk);
            }
            self.eat_whitespace();
            match self.indexed_next() {
                None => {
                    return Err(ParseError::UnexpectedEOF);
                },
                Some(pc) => {
                    if pc.1 != 0x3a {
                        return Err(ParseError::InvalidCharacter(pc.0));
                    }
                },
            }
            let ghost c1 = self.index as int;
            proof {
                lemma_skip_ws(s, c1);
            }
            self.eat_whitespace();
            let ghost m3 = self.index as int;
            let v = match self.parse_value() {
                Ok(v) => v,
                Err(e) => {
                    return Err(e);
                },
            };
            let ghost m4 = self.index as int;
            proof {
                lemma_parse_value_advances(s, m3);
                lemma_skip_ws(s, m4);
            }
            self.eat_whitespace();
            match self.indexed_next() {
                None => {
                    return Err(ParseError::UnexpectedEOF);
                },
                Some(p2) => {
                    if p2.1 == 0x7d {
                        map.insert(key, v);
                        return Ok(map);
                    } else if p2.1 == 0x2c {
                        map.insert(key, v);
                        proof {
                            cur = p2.0 + 1;
                        }
                    } else {
                        return Err(ParseError::InvalidCharacter(p2.0));
                    }
                },
            }
        }
    }

    /// Consumes whitespace, leaving the cursor on the first non-whitespace
    /// byte (or at the end of the input).
    pub fn eat_whitespace(&mut self)
        requires
            old(self).wf(),
        ensures
            final(self).wf(),
            final(self).source == old(self).source,
            final(self).index == skip_ws(old(self).source@, old(self).index as int),
    {
        loop
            invariant
                self.wf(),
                self.source == old(self).source,
                skip_ws(self.source@, old(self).index as int) == skip_ws(
                    self.source@,
                    self.index as int,
                ),
            decreases self.source@.len() - self.index,
        {
            if self.index < self.source.len() {
                let b = self.source[self.index];
                if b == 0x20 || b == 0x09 || b == 0x0a || b == 0x0c || b == 0x0d {
                    self.index = self.index + 1;
                    continue ;
                }
            }
            return ;
        }
    }
}

impl Value {
    /// Parses a complete JSON document from bytes: leading whitespace, one
    /// value, trailing whitespace, and nothing else; see
    /// [`spec_parse_text`] for the exact statement.
    pub fn parse_bytes(text: &[u8]) -> (r: Result<Value, ParseError>)
        ensures
            match r {
                Ok(v) => spec_parse_text(text@) == Ok::<SpecValue, ParseError>(v.view()),
                Err(e) => spec_parse_text(text@) == Err::<SpecValue, ParseError>(e),
            },
    {
        let mut parser = Parser::new(text);
        parser.eat_whitespace();
        let res = match parser.parse_value() {
            Ok(v) => v,
            Err(e) => {
                return Err(e);
            },
        };
        parser.eat_whitespace();
        if !parser.is_eof() {
            Err(ParseError::InvalidCharacter(parser.index))
        } else {
            Ok(res)
        }
    }

    /// Parses a complete JSON document from text, over its UTF-8 bytes.
    pub fn from_str(text: &str) -> (r: Result<Value, ParseError>)
        ensures
            match r {
                Ok(v) => spec_parse_text(text.spec_bytes()) == Ok::<SpecValue, ParseError>(
                    v.view(),
                ),
                Err(e) => spec_parse_text(text.spec_bytes()) == Err::<SpecValue, ParseError>(e),
            },
    {
        Value::parse_bytes(text.as_bytes())
    }
}

impl core::str::FromStr for Value {
    type Err = ParseError;

    /// Parses a JSON document, as [`Value::from_str`] does.
    fn from_str(text: &str) -> Result<Value, ParseError> {
        Value::from_str(text)
    }
}

} // verus!
