//! One step of the lexer from each state.
use crate::lex::machine::{
    at, byte_digits, decimal_value, is_alpha, is_base_letter, is_close_delim, is_digit,
    is_ident_start, is_lower, is_open_delim, is_punct_first, is_punct_second, is_quote,
    is_single_punct, is_space, span_of, step_spec, LexState,
};
use crate::lex::scan::punct_of_pair;
use crate::lex::session::{noted_error, range_error, step_agrees, Session};
use crate::lex::token::{
    Delim, Error, ErrorKind, ErrorSpan, Note, NumberLiteral, Punct, Span, TokenKind, Unsupported,
};
use vstd::prelude::*;

verus! {

fn single_byte(b: u8) -> (r: Vec<u8>)
    ensures
        r@ == seq![b],
{
    let mut r: Vec<u8> = Vec::new();
    r.push(b);
    r
}

impl Session {
    /// `#` and decimal digits: a byte.
    fn step_byte_literal(&mut self) -> (r: Option<Result<bool, Error>>)
        requires
            old(self).state == LexState::Init,
            old(self).ready(),
            at(old(self).input_bytes@, old(self).cursor as int) == 35,
        ensures
            final(self).input_bytes@ == old(self).input_bytes@,
            final(self).is_std == old(self).is_std,
            final(self).errors@ == old(self).errors@,
            final(self).token_trees@ == old(self).token_trees@,
            step_agrees(old(self).model(), final(self).model(), old(self).input_bytes@, r),
    {
        let ghost inp = self.input_bytes@;
        let ghost m = self.model();
        let c = self.cursor;
        if is_base_letter(self.byte(c + 1)) {
            // non-decimal byte literals are not lexed; `ready` rules this out
            return None;
        }
        let mut i = c + 1;
        let mut value: u32 = 0;
        let mut big = false;
        let mut any_digit = false;
        let ghost mut acc: Seq<u8> = seq![];
        loop
            invariant
                c + 1 <= i <= inp.len(),
                inp.len() + 512 <= usize::MAX,
                self.input_bytes@ == inp,
                self.cursor == c,
                m == old(self).model(),
                self.model() == m,
                inp == old(self).input_bytes@,
                step_spec(m, inp) == crate::lex::machine::byte_literal_step(m, inp),
                m.cursor == c,
                !is_base_letter(at(inp, c + 1)),
                ({
                    let r = byte_digits(inp, i as int);
                    byte_digits(inp, c + 1) == (r.0, acc + r.1, r.2)
                }),
                any_digit == (acc.len() > 0),
                !big ==> value == decimal_value(acc) && value <= 255,
                big ==> decimal_value(acc) > 255,
            ensures
                byte_digits(inp, c + 1) == (i as int, acc, false),
                c + 1 <= i <= inp.len(),
                any_digit == (acc.len() > 0),
                !big ==> value == decimal_value(acc) && value <= 255,
                big ==> decimal_value(acc) > 255,
            decreases inp.len() - i,
        {
            let x = self.byte(i);
            if is_digit(x) {
                let d = (x - 48) as u32;
                proof {
                    let acc2 = acc.push(x as u8);
                    assert(acc2.drop_last() =~= acc);
                    assert(seq![x as u8] + byte_digits(inp, i + 1).1 =~= seq![x as u8].add(
                        byte_digits(inp, i + 1).1,
                    ));
                    assert(acc + (seq![x as u8] + byte_digits(inp, i + 1).1) =~= acc2
                        + byte_digits(inp, i + 1).1);
                    acc = acc2;
                }
                if !big {
                    value = value * 10 + d;
                    if value > 255 {
                        big = true;
                    }
                }
                any_digit = true;
                i = i + 1;
            } else if is_alpha(x) {
                proof {
                    assert(byte_digits(inp, i as int) == (i as int, Seq::<u8>::empty(), true));
                    assert(acc + seq![] =~= acc);
                }
                return Some(Err(
                    noted_error(ErrorKind::InvalidByteLiteral, i, i + 1, Note::InvalidDigit(x as u8)),
                ));
            } else if x == 95 {
                i = i + 1;
            } else {
                proof {
                    assert(acc + seq![] =~= acc);
                }
                break ;
            }
        }
        if !any_digit {
            return Some(Err(range_error(ErrorKind::InvalidByteLiteral, c, i)));
        }
        if big {
            return Some(Err(noted_error(ErrorKind::InvalidByteLiteral, c, i, Note::ByteRange)));
        }
        self.push_token(TokenKind::Byte(value as u8), c, i);
        self.cursor = i;
        Some(Ok(false))
    }

    /// A step from `Init`.
    pub fn step_init(&mut self) -> (r: Option<Result<bool, Error>>)
        requires
            old(self).state == LexState::Init,
            old(self).ready(),
        ensures
            final(self).input_bytes@ == old(self).input_bytes@,
            final(self).is_std == old(self).is_std,
            final(self).errors@ == old(self).errors@,
            final(self).token_trees@ == old(self).token_trees@,
            step_agrees(old(self).model(), final(self).model(), old(self).input_bytes@, r),
    {
        let ghost m = self.model();
        let ghost inp = self.input_bytes@;
        let c = self.cursor;
        let c0 = self.byte(c);
        let c1 = self.byte(c + 1);
        let c2 = self.byte(c + 2);
        if (is_lower(c0) && is_lower(c1) && is_quote(c2)) || (is_lower(c0) && is_quote(c1))
            || is_quote(c0) {
            self.state = LexState::StringPrefix;
        } else if is_ident_start(c0) {
            self.buffer1.clear();
            self.buffer1.push(c0 as u8);
            self.token_start = c;
            self.state = LexState::Identifier;
            self.cursor = c + 1;
        } else if c0 == 96 && is_ident_start(c1) {
            self.buffer1.clear();
            self.buffer1.push(c1 as u8);
            self.token_start = c;
            self.state = LexState::FieldModifier;
            self.cursor = c + 2;
        } else if is_digit(c0) && c1 == 46 && c2 == 46 {
            let id = self.intern(single_byte(c0 as u8));
            self.push_token(TokenKind::Number(NumberLiteral { digits: id, fraction: None }), c, c + 1);
            self.cursor = c + 1;
        } else if c0 == 48 && is_base_letter(c1) {
            return Some(Err(
                range_error(ErrorKind::Unsupported(Unsupported::NonDecimalInteger), c, c + 2),
            ));
        } else if is_digit(c0) && is_alpha(c1) {
            return Some(Err(range_error(ErrorKind::InvalidNumberLiteral, c + 1, c + 2)));
        } else if c0 == 48 && c1 == 46 {
            self.buffer1.clear();
            self.buffer1.push(48);
            self.buffer2.clear();
            self.token_start = c;
            self.state = LexState::Fraction;
            self.cursor = c + 2;
        } else if c0 == 48 {
            let id = self.intern(single_byte(48));
            self.push_token(TokenKind::Number(NumberLiteral { digits: id, fraction: None }), c, c + 1);
            self.cursor = c + 1;
        } else if is_digit(c0) {
            self.buffer1.clear();
            self.buffer1.push(c0 as u8);
            self.token_start = c;
            self.state = LexState::Integer;
            self.cursor = c + 1;
        } else if c0 == 35 {
            return self.step_byte_literal();
        } else if c0 == 47 && c1 == 47 && c2 == 47 {
            self.token_start = c;
            self.state = LexState::DocComment;
            self.cursor = c + 3;
        } else if c0 == 47 && c1 == 47 {
            self.state = LexState::LineComment;
            self.cursor = c + 2;
        } else if c0 == 47 && c1 == 42 {
            self.token_start = c;
            self.state = LexState::BlockComment;
            self.cursor = c + 2;
        } else if is_space(c0) {
            self.cursor = c + 1;
        } else if is_open_delim(c0) {
            let (delim, closing) = if c0 == 91 {
                (Delim::Bracket, 93u8)
            } else if c0 == 123 {
                (Delim::Brace, 125u8)
            } else {
                (Delim::Parenthesis, 41u8)
            };
            let sp = Span { start: c, end: c + 1 };
            self.group_stack.push((closing, sp));
            self.push_token(TokenKind::GroupDelim { delim: Some(delim), id: sp }, c, c + 1);
            self.cursor = c + 1;
        } else if c0 == 92 && c1 == 40 {
            let sp = Span { start: c, end: c + 2 };
            self.group_stack.push((41u8, sp));
            self.push_token(TokenKind::GroupDelim { delim: Some(Delim::Lambda), id: sp }, c, c + 2);
            self.cursor = c + 2;
        } else if is_close_delim(c0) {
            match self.group_stack.pop() {
                Some((closing, sp)) => {
                    if closing as i32 == c0 {
                        self.push_token(TokenKind::GroupDelim { delim: None, id: sp }, c, c + 1);
                        self.cursor = c + 1;
                    } else {
                        return Some(Err(
                            range_error(
                                ErrorKind::UnmatchedGroup { expected: closing, got: c0 as u8 },
                                c,
                                c + 1,
                            ),
                        ));
                    }
                },
                None => {
                    return Some(Err(
                        Error {
                            kind: ErrorKind::UnexpectedCharacter(c0 as u8),
                            span: ErrorSpan::Eof,
                            note: None,
                        },
                    ));
                },
            }
        } else if c0 == 46 && c1 == 46 && c2 == 61 {
            self.push_token(TokenKind::Punct(Punct::DotDotEq), c, c + 3);
            self.cursor = c + 3;
        } else if is_punct_first(c0) && is_punct_second(c1) {
            match punct_of_pair(c0, c1) {
                Some(p) => {
                    self.push_token(TokenKind::Punct(p), c, c + 2);
                },
                None => {
                    self.push_token(TokenKind::Punct(Punct::Single(c0 as u8)), c, c + 1);
                    self.push_token(TokenKind::Punct(Punct::Single(c1 as u8)), c + 1, c + 2);
                },
            }
            self.cursor = c + 2;
        } else if is_single_punct(c0) {
            self.push_token(TokenKind::Punct(Punct::Single(c0 as u8)), c, c + 1);
            self.cursor = c + 1;
        } else if c0 >= 192 {
            self.buffer1.clear();
            self.token_start = c;
            self.state = LexState::Identifier;
        } else if c0 >= 0 {
            // a byte that no token starts with; `ready` rules this out
            return None;
        } else {
            match self.group_stack.pop() {
                Some((closing, sp)) => {
                    return Some(Err(
                        Error {
                            kind: ErrorKind::UnclosedDelimiter(closing),
                            span: ErrorSpan::Range(sp),
                            note: None,
                        },
                    ));
                },
                None => {
                    return Some(Ok(true));
                },
            }
        }
        Some(Ok(false))
    }
}

} // verus!
