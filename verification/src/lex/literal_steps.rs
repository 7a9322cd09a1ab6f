//! The steps of the lexer inside string and char literals.
use crate::lex::machine::{
    at, char_shape, char_step, decode2, decode3, decode4, hex_value, is_cont, is_hex, is_lower,
    is_prefix_letter, is_quote, is_scalar, is_simple_escape, lex_wf, quotes_or_256, span_of,
    step_spec, unicode_scan, utf8_shape, LexModel, LexState, UnicodeScan,
};
use crate::lex::scan::{escape_byte, hex_digit};
use crate::lex::session::{count_quotes, noted_error, range_error, step_agrees, Session};
use crate::lex::token::{Error, ErrorKind, ErrorSpan, Note, TokenKind, Unsupported};
use vstd::prelude::*;

verus! {

/// The bad prefix error for a prefix before the quote `q`.
fn prefix_error_of(q: i32) -> (r: ErrorKind)
    ensures
        r == crate::lex::machine::prefix_error(q),
{
    if q == 34 {
        ErrorKind::InvalidStringLiteralPrefix
    } else {
        ErrorKind::InvalidCharLiteralPrefix
    }
}

/// The run of quotes at `i`, or 256 for a run that long or longer.
fn quotes_at(buffer: &[u8], i: usize) -> (r: usize)
    ensures
        r == quotes_or_256(buffer@, i as int),
{
    match count_quotes(buffer, i) {
        Ok(n) => n,
        Err(_) => 256,
    }
}

impl Session {
    /// A step from `StringPrefix`.
    pub fn step_string_prefix(&mut self) -> (r: Option<Result<bool, Error>>)
        requires
            old(self).state == LexState::StringPrefix,
            old(self).ready(),
        ensures
            final(self).input_bytes@ == old(self).input_bytes@,
            final(self).is_std == old(self).is_std,
            final(self).errors@ == old(self).errors@,
            final(self).token_trees@ == old(self).token_trees@,
            step_agrees(old(self).model(), final(self).model(), old(self).input_bytes@, r),
    {
        let c = self.cursor;
        let c0 = self.byte(c);
        let c1 = self.byte(c + 1);
        let c2 = self.byte(c + 2);
        let br = (c0 == 98 && c1 == 114) || (c0 == 114 && c1 == 98);
        let fr = (c0 == 102 && c1 == 114) || (c0 == 114 && c1 == 102);
        if is_prefix_letter(c0) && is_prefix_letter(c1) && is_quote(c2) && c0 == c1 {
            Some(Err(range_error(prefix_error_of(c2), c, c + 2)))
        } else if ((c0 == 98 && c1 == 102) || (c0 == 102 && c1 == 98)) && is_quote(c2) {
            Some(Err(range_error(prefix_error_of(c2), c, c + 2)))
        } else if br && c2 == 34 {
            self.state = LexState::StringInit { binary: true, format: false, raw: true };
            self.cursor = c + 2;
            Some(Ok(false))
        } else if br && c2 == 39 {
            if c0 == 98 {
                Some(Err(range_error(ErrorKind::InvalidCharLiteralPrefix, c + 1, c + 2)))
            } else {
                Some(Err(range_error(ErrorKind::InvalidCharLiteralPrefix, c, c + 1)))
            }
        } else if fr && c2 == 34 {
            self.state = LexState::StringInit { binary: false, format: true, raw: true };
            self.cursor = c + 2;
            Some(Ok(false))
        } else if fr && c2 == 39 {
            Some(Err(range_error(ErrorKind::InvalidCharLiteralPrefix, c, c + 2)))
        } else if is_prefix_letter(c0) && c1 == 34 {
            self.state = LexState::StringInit {
                binary: c0 == 98,
                format: c0 == 102,
                raw: c0 == 114,
            };
            self.cursor = c + 1;
            Some(Ok(false))
        } else if c0 == 98 && c1 == 39 {
            self.state = LexState::StringInit { binary: true, format: false, raw: false };
            self.cursor = c + 1;
            Some(Ok(false))
        } else if (c0 == 102 || c0 == 114) && c1 == 39 {
            Some(Err(range_error(ErrorKind::InvalidCharLiteralPrefix, c, c + 1)))
        } else if is_quote(c0) {
            self.state = LexState::StringInit { binary: false, format: false, raw: false };
            Some(Ok(false))
        } else if is_lower(c0) && is_lower(c1) && is_quote(c2) {
            Some(Err(range_error(prefix_error_of(c2), c, c + 2)))
        } else if is_lower(c0) && is_quote(c1) {
            Some(Err(range_error(prefix_error_of(c1), c, c + 1)))
        } else {
            // this state is entered only before a quote; `ready` rules this out
            None
        }
    }

    /// A step from `StringInit`.
    pub fn step_string_init(&mut self, binary: bool, format: bool, raw: bool) -> (r: Option<Result<bool, Error>>)
        requires
            old(self).state == (LexState::StringInit { binary, format, raw }),
            old(self).ready(),
        ensures
            final(self).input_bytes@ == old(self).input_bytes@,
            final(self).is_std == old(self).is_std,
            final(self).errors@ == old(self).errors@,
            final(self).token_trees@ == old(self).token_trees@,
            step_agrees(old(self).model(), final(self).model(), old(self).input_bytes@, r),
    {
        let ghost m = self.model();
        let ghost inp = self.input_bytes@;
        let c = self.cursor;
        let c0 = self.byte(c);
        let c1 = self.byte(c + 1);
        let c2 = self.byte(c + 2);
        if c0 == 34 && c1 == 34 && c2 == 34 {
            let qc = quotes_at(self.input_bytes.as_slice(), c);
            proof {
                crate::lex::machine::lemma_quote_run(inp, c as int);
            }
            if (qc % 2 == 0 && qc > 254) || (qc % 2 == 1 && qc > 127) {
                return Some(Err(range_error(ErrorKind::TooManyQuotes, c, c + 1)));
            }
            if qc % 4 == 2 {
                if format {
                    // formatted strings are not lexed; `ready` rules this out
                    return None;
                }
                let id = self.intern(Vec::new());
                self.push_token(TokenKind::String { binary, raw, s: id }, c, c + qc);
                self.state = LexState::Init;
                self.cursor = c + qc;
            } else if qc % 4 == 0 {
                return Some(Err(
                    range_error(ErrorKind::WrongNumberOfQuotesInRawStringLiteral, c, c + qc),
                ));
            } else if format {
                self.token_start = c;
                self.state = LexState::FormattedString { raw, quote_count: qc };
                self.cursor = c + qc;
            } else {
                self.token_start = c;
                self.buffer1.clear();
                self.state = LexState::String { binary, raw, quote_count: qc };
                self.cursor = c + qc;
            }
        } else if c0 == 34 && c1 == 34 {
            if format {
                // formatted strings are not lexed; `ready` rules this out
                return None;
            }
            let id = self.intern(Vec::new());
            self.push_token(TokenKind::String { binary, raw, s: id }, c, c + 2);
            self.state = LexState::Init;
            self.cursor = c + 2;
        } else if c0 == 39 && c1 == 39 {
            return Some(Err(range_error(ErrorKind::EmptyCharLiteral, c, c + 2)));
        } else if c0 == 34 {
            self.buffer1.clear();
            self.token_start = c;
            if format {
                self.state = LexState::FormattedString { raw, quote_count: 1 };
            } else {
                self.state = LexState::String { binary, raw, quote_count: 1 };
            }
            self.cursor = c + 1;
        } else if c0 == 39 {
            // a byte literal starts at its `b`
            self.token_start = if binary && c > 0 {
                c - 1
            } else {
                c
            };
            self.state = LexState::Char { binary };
            self.cursor = c + 1;
        } else {
            // this state is entered only at a quote; `ready` rules this out
            return None;
        }
        Some(Ok(false))
    }

    /// A step inside a raw string literal.
    pub fn step_raw_string(&mut self, binary: bool, quote_count: usize) -> (r: Option<Result<bool, Error>>)
        requires
            old(self).state == (LexState::String { binary, raw: true, quote_count }),
            old(self).ready(),
        ensures
            final(self).input_bytes@ == old(self).input_bytes@,
            final(self).is_std == old(self).is_std,
            final(self).errors@ == old(self).errors@,
            final(self).token_trees@ == old(self).token_trees@,
            step_agrees(old(self).model(), final(self).model(), old(self).input_bytes@, r),
    {
        let c = self.cursor;
        let c0 = self.byte(c);
        let c1 = self.byte(c + 1);
        let c2 = self.byte(c + 2);
        if c0 == 34 && quote_count == 1 {
            let s = self.buffer1_copy();
            let id = self.intern(s);
            let start = self.token_start;
            self.push_token(TokenKind::String { binary, raw: true, s: id }, start, c + 1);
            self.state = LexState::Init;
            self.cursor = c + 1;
            Some(Ok(false))
        } else if c0 == 34 && c1 == 34 && c2 == 34 {
            if quote_count == 3 || quotes_at(self.input_bytes.as_slice(), c) >= quote_count {
                // a run of closing quotes is not lexed yet; `ready` rules this out
                return None;
            }
            self.take_bytes(c, 3);
            assert(self.input_bytes@.subrange(c as int, c + 3) =~= seq![34u8, 34, 34]);
            self.cursor = c + 3;
            Some(Ok(false))
        } else if c0 >= 0 {
            self.buffer1.push(c0 as u8);
            self.cursor = c + 1;
            Some(Ok(false))
        } else {
            let start = self.token_start;
            Some(Err(range_error(ErrorKind::UnterminatedStringLiteral, start, start + quote_count)))
        }
    }

    /// A step inside a string literal that is not raw.
    pub fn step_string(&mut self, binary: bool, quote_count: usize) -> (r: Option<Result<bool, Error>>)
        requires
            old(self).state == (LexState::String { binary, raw: false, quote_count }),
            old(self).ready(),
        ensures
            final(self).input_bytes@ == old(self).input_bytes@,
            final(self).is_std == old(self).is_std,
            final(self).errors@ == old(self).errors@,
            final(self).token_trees@ == old(self).token_trees@,
            step_agrees(old(self).model(), final(self).model(), old(self).input_bytes@, r),
    {
        let c = self.cursor;
        let c0 = self.byte(c);
        let c1 = self.byte(c + 1);
        let c2 = self.byte(c + 2);
        let c3 = self.byte(c + 3);
        if c0 == 92 && is_simple_escape(c1) {
            self.buffer1.push(escape_byte(c1));
            self.cursor = c + 2;
            Some(Ok(false))
        } else if c0 == 92 && c1 == 120 && is_hex(c2) && is_hex(c3) {
            // `\x` escapes in strings are not lexed yet; `ready` rules this out
            None
        } else if c0 == 92 && c1 >= 0 {
            Some(Err(range_error(ErrorKind::InvalidEscape, c + 1, c + 2)))
        } else if c0 == 34 && quote_count == 1 {
            let s = self.buffer1_copy();
            let id = self.intern(s);
            let start = self.token_start;
            self.push_token(TokenKind::String { binary, raw: false, s: id }, start, c + 1);
            self.state = LexState::Init;
            self.cursor = c + 1;
            Some(Ok(false))
        } else if c0 == 34 && c1 == 34 && c2 == 34 && quote_count >= 3 {
            // a run of closing quotes is not lexed yet; `ready` rules this out
            None
        } else {
            let l: usize = if 0 <= c0 && c0 <= 127 {
                1
            } else if 192 <= c0 && c0 <= 223 && is_cont(c1) {
                2
            } else if 224 <= c0 && c0 <= 239 && is_cont(c1) && is_cont(c2) {
                3
            } else if 240 <= c0 && c0 <= 247 && is_cont(c1) && is_cont(c2) && is_cont(c3) {
                4
            } else {
                0
            };
            assert(l == utf8_shape(c0, c1, c2, c3));
            if c0 >= 0 && l > 0 {
                self.take_bytes(c, l);
                self.cursor = c + l;
                Some(Ok(false))
            } else if c0 >= 0 {
                Some(Err(range_error(ErrorKind::InvalidUtf8, c, c + 1)))
            } else {
                let start = self.token_start;
                Some(Err(range_error(ErrorKind::UnterminatedStringLiteral, start, start + quote_count)))
            }
        }
    }

    /// The token of a char literal of value `n` that ends at `e`.
    fn finish_char(&mut self, binary: bool, n: u32, e: usize) -> (r: Option<Result<bool, Error>>)
        ensures
            final(self).input_bytes@ == old(self).input_bytes@,
            final(self).is_std == old(self).is_std,
            final(self).errors@ == old(self).errors@,
            final(self).token_trees@ == old(self).token_trees@,
            ({
                let (m2, o) = crate::lex::machine::char_token(old(self).model(), binary, n as int, e as int);
                match o {
                    crate::lex::machine::Outcome::Continue => r == Some(Ok::<bool, Error>(false))
                        && final(self).model() == m2,
                    crate::lex::machine::Outcome::Fail(err) => r == Some(Err::<bool, Error>(err))
                        && final(self).model() == old(self).model(),
                    _ => false,
                }
            }),
    {
        let start = self.token_start;
        if binary {
            if n < 128 {
                self.push_token(TokenKind::Byte(n as u8), start, e);
            } else {
                let note = if n < 256 {
                    Note::PerhapsByte(n)
                } else {
                    Note::ByteRange
                };
                return Some(Err(noted_error(ErrorKind::InvalidByteLiteral, start, e, note)));
            }
        } else {
            self.push_token(TokenKind::Char(n), start, e);
        }
        self.state = LexState::Init;
        self.cursor = e;
        Some(Ok(false))
    }

    /// A `\u{...}` escape in a char literal.
    fn step_unicode_escape(&mut self, binary: bool) -> (r: Option<Result<bool, Error>>)
        requires
            old(self).state == (LexState::Char { binary }),
            old(self).ready(),
            at(old(self).input_bytes@, old(self).cursor as int) == 92,
            at(old(self).input_bytes@, old(self).cursor + 1) == 117,
            at(old(self).input_bytes@, old(self).cursor + 2) == 123,
        ensures
            final(self).input_bytes@ == old(self).input_bytes@,
            final(self).is_std == old(self).is_std,
            final(self).errors@ == old(self).errors@,
            final(self).token_trees@ == old(self).token_trees@,
            step_agrees(old(self).model(), final(self).model(), old(self).input_bytes@, r),
    {
        let ghost m = self.model();
        let ghost inp = self.input_bytes@;
        let c = self.cursor;
        let mut i = c + 3;
        let mut n: u32 = 0;
        loop
            invariant
                c + 3 <= i <= inp.len(),
                inp.len() + 512 <= usize::MAX,
                at(inp, c as int) == 92,
                at(inp, c + 1) == 117,
                at(inp, c + 2) == 123,
                self.input_bytes@ == inp,
                self.model() == m,
                m == old(self).model(),
                inp == old(self).input_bytes@,
                m.cursor == c,
                step_spec(m, inp) == char_step(m, inp, binary),
                n <= 0x10ffff,
                unicode_scan(inp, c + 3, 0) == unicode_scan(inp, i as int, n as int),
            ensures
                c + 3 <= i < inp.len(),
                n <= 0x10ffff,
                unicode_scan(inp, c + 3, 0) == UnicodeScan::Closed(i + 1, n as int),
            decreases inp.len() - i,
        {
            let x = self.byte(i);
            if is_hex(x) {
                let n2 = n * 16 + hex_digit(x);
                i = i + 1;
                if n2 > 0x10ffff {
                    return Some(Err(range_error(ErrorKind::InvalidUnicodeCharacter, c, c + 1)));
                }
                n = n2;
            } else if x == 125 {
                break ;
            } else if x >= 0 {
                return Some(Err(range_error(ErrorKind::InvalidUnicodeEscape, i, i + 1)));
            } else {
                return Some(Err(
                    Error {
                        kind: ErrorKind::UnclosedDelimiter(125),
                        span: ErrorSpan::Eof,
                        note: None,
                    },
                ));
            }
        }
        let j = i + 1;
        if self.byte(j) != 39 {
            // an escape not followed by the closing quote is not lexed; `ready` rules this out
            return None;
        }
        self.finish_char(binary, n, j + 1)
    }

    /// A step inside a char literal.
    pub fn step_char(&mut self, binary: bool) -> (r: Option<Result<bool, Error>>)
        requires
            old(self).state == (LexState::Char { binary }),
            old(self).ready(),
        ensures
            final(self).input_bytes@ == old(self).input_bytes@,
            final(self).is_std == old(self).is_std,
            final(self).errors@ == old(self).errors@,
            final(self).token_trees@ == old(self).token_trees@,
            step_agrees(old(self).model(), final(self).model(), old(self).input_bytes@, r),
    {
        let c = self.cursor;
        let c0 = self.byte(c);
        let c1 = self.byte(c + 1);
        let c2 = self.byte(c + 2);
        let c3 = self.byte(c + 3);
        let c4 = self.byte(c + 4);
        let ts = self.token_start;
        if c0 == 92 && is_simple_escape(c1) && c2 == 39 {
            let b = escape_byte(c1);
            self.finish_char(binary, b as u32, c + 3)
        } else if c0 == 92 && c1 == 120 && is_hex(c2) && is_hex(c3) && c4 == 39 {
            let hi = hex_digit(c2);
            let v = hi * 16 + hex_digit(c3);
            if binary && hi >= 8 {
                Some(Err(noted_error(ErrorKind::InvalidByteLiteral, ts, c + 5, Note::PerhapsByte(v))))
            } else {
                self.finish_char(binary, v, c + 5)
            }
        } else if c0 == 92 && c1 == 117 && c2 == 123 {
            self.step_unicode_escape(binary)
        } else if c0 == 92 && c1 >= 0 {
            Some(Err(range_error(ErrorKind::InvalidEscape, c + 1, c + 2)))
        } else if c0 == 13 || c0 == 10 || c0 == 9 || c0 == 39 {
            Some(Err(range_error(ErrorKind::InvalidCharLiteral, c, c + 1)))
        } else {
            let (n, l): (u32, usize) = if 0 <= c0 && c0 <= 127 && c1 == 39 {
                (c0 as u32, 1)
            } else if 192 <= c0 && c0 <= 223 && is_cont(c1) && c2 == 39 {
                (((c0 - 192) * 64 + (c1 - 128)) as u32, 2)
            } else if 224 <= c0 && c0 <= 239 && is_cont(c1) && is_cont(c2) && c3 == 39 {
                (((c0 - 224) * 4096 + (c1 - 128) * 64 + (c2 - 128)) as u32, 3)
            } else if 240 <= c0 && c0 <= 247 && is_cont(c1) && is_cont(c2) && is_cont(c3) && c4
                == 39 {
                (((c0 - 240) * 262144 + (c1 - 128) * 4096 + (c2 - 128) * 64 + (c3 - 128)) as u32, 4)
            } else {
                (0, 0)
            };
            assert(n as int == char_shape(c0, c1, c2, c3, c4).0);
            assert(l as int == char_shape(c0, c1, c2, c3, c4).1);
            if l > 0 {
                let scalar = n <= 0x10ffff && !(0xd800 <= n && n <= 0xdfff);
                if scalar {
                    self.finish_char(binary, n, c + l + 1)
                } else {
                    Some(Err(range_error(ErrorKind::InvalidUtf8, c, c + 1)))
                }
            } else if c0 >= 128 {
                Some(Err(range_error(ErrorKind::InvalidUtf8, c, c + 1)))
            } else if c0 >= 0 {
                Some(Err(range_error(ErrorKind::InvalidCharLiteral, ts, ts + 1)))
            } else {
                Some(Err(range_error(ErrorKind::UnterminatedCharLiteral, ts, ts + 1)))
            }
        }
    }

    /// A step inside a formatted string: these are not lexed yet.
    pub fn step_formatted_string(&mut self) -> (r: Option<Result<bool, Error>>)
        requires
            old(self).state matches LexState::FormattedString { .. },
            old(self).ready(),
        ensures
            final(self).input_bytes@ == old(self).input_bytes@,
            final(self).is_std == old(self).is_std,
            final(self).errors@ == old(self).errors@,
            final(self).token_trees@ == old(self).token_trees@,
            step_agrees(old(self).model(), final(self).model(), old(self).input_bytes@, r),
    {
        let start = self.token_start;
        Some(Err(range_error(ErrorKind::Unsupported(Unsupported::FormattedString), start, start + 1)))
    }
}

} // verus!
