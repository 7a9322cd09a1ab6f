//! The steps of the lexer inside identifiers, numbers and comments.
use crate::lex::machine::{
    at, is_alpha, is_cont, is_digit, is_ident_char, step_spec, utf8_shape, LexState,
};
use crate::lex::scan::{first_bad_identifier_char, keyword_lookup};
use crate::lex::session::{noted_error, range_error, step_agrees, Session};
use crate::lex::token::{Error, ErrorKind, ErrorSpan, Note, NumberLiteral, TokenKind};
use vstd::prelude::*;

verus! {

impl Session {
    /// A step inside an identifier or a keyword.
    pub fn step_identifier(&mut self) -> (r: Option<Result<bool, Error>>)
        requires
            old(self).state == LexState::Identifier,
            old(self).ready(),
        ensures
            final(self).input_bytes@ == old(self).input_bytes@,
            final(self).is_std == old(self).is_std,
            final(self).errors@ == old(self).errors@,
            final(self).token_trees@ == old(self).token_trees@,
            step_agrees(old(self).model(), final(self).model(), old(self).input_bytes@, r),
    {
        let c = self.cursor;
        let c0 = self.byte(c);
        let c1 = self.byte(c + 1);
        let c2 = self.byte(c + 2);
        let c3 = self.byte(c + 3);
        if is_ident_char(c0) {
            self.buffer1.push(c0 as u8);
            self.cursor = c + 1;
            return Some(Ok(false));
        }
        let l: usize = if 192 <= c0 && c0 <= 223 && is_cont(c1) {
            2
        } else if 224 <= c0 && c0 <= 239 && is_cont(c1) && is_cont(c2) {
            3
        } else if 240 <= c0 && c0 <= 247 && is_cont(c1) && is_cont(c2) && is_cont(c3) {
            4
        } else {
            0
        };
        assert(c0 >= 128 ==> l == utf8_shape(c0, c1, c2, c3));
        if c0 >= 128 && l > 0 {
            self.take_bytes(c, l);
            self.cursor = c + l;
            return Some(Ok(false));
        }
        if c0 >= 128 {
            return Some(Err(range_error(ErrorKind::InvalidUtf8, c, c + 1)));
        }
        let start = self.token_start;
        match keyword_lookup(self.buffer1.as_slice()) {
            Some(k) => {
                self.push_token(TokenKind::Keyword(k), start, c);
            },
            None => {
                match first_bad_identifier_char(self.buffer1.as_slice()) {
                    Some(ch) => {
                        return Some(Err(
                            range_error(ErrorKind::InvalidCharacterInIdentifier(ch), start, start + 1),
                        ));
                    },
                    None => {
                        let s = self.buffer1_copy();
                        let id = self.intern(s);
                        self.push_token(TokenKind::Identifier(id), start, c);
                    },
                }
            },
        }
        self.state = LexState::Init;
        Some(Ok(false))
    }

    /// A step inside a field modifier: a backtick and an identifier.
    pub fn step_field_modifier(&mut self) -> (r: Option<Result<bool, Error>>)
        requires
            old(self).state == LexState::FieldModifier,
            old(self).ready(),
        ensures
            final(self).input_bytes@ == old(self).input_bytes@,
            final(self).is_std == old(self).is_std,
            final(self).errors@ == old(self).errors@,
            final(self).token_trees@ == old(self).token_trees@,
            step_agrees(old(self).model(), final(self).model(), old(self).input_bytes@, r),
    {
        let c = self.cursor;
        let c0 = self.byte(c);
        if is_ident_char(c0) {
            self.buffer1.push(c0 as u8);
            self.cursor = c + 1;
        } else {
            let s = self.buffer1_copy();
            let id = self.intern(s);
            let start = self.token_start;
            self.push_token(TokenKind::FieldModifier(id), start, c);
            self.state = LexState::Init;
        }
        Some(Ok(false))
    }

    /// A step inside the digits of a number before its dot.
    pub fn step_integer(&mut self) -> (r: Option<Result<bool, Error>>)
        requires
            old(self).state == LexState::Integer,
            old(self).ready(),
        ensures
            final(self).input_bytes@ == old(self).input_bytes@,
            final(self).is_std == old(self).is_std,
            final(self).errors@ == old(self).errors@,
            final(self).token_trees@ == old(self).token_trees@,
            step_agrees(old(self).model(), final(self).model(), old(self).input_bytes@, r),
    {
        let c = self.cursor;
        let c0 = self.byte(c);
        if is_digit(c0) {
            self.buffer1.push(c0 as u8);
            self.cursor = c + 1;
        } else if is_alpha(c0) {
            return Some(Err(
                noted_error(ErrorKind::InvalidNumberLiteral, c, c + 1, Note::InvalidDigit(c0 as u8)),
            ));
        } else if c0 == 95 {
            self.cursor = c + 1;
        } else if c0 == 46 && self.byte(c + 1) != 46 {
            self.buffer2.clear();
            self.state = LexState::Fraction;
            self.cursor = c + 1;
        } else {
            // the end of the number; before `..` the dots are a range, not a fraction
            let s = self.buffer1_copy();
            let id = self.intern(s);
            let start = self.token_start;
            self.push_token(TokenKind::Number(NumberLiteral { digits: id, fraction: None }), start, c);
            self.state = LexState::Init;
        }
        Some(Ok(false))
    }

    /// A step inside the digits of a number after its dot.
    pub fn step_fraction(&mut self) -> (r: Option<Result<bool, Error>>)
        requires
            old(self).state == LexState::Fraction,
            old(self).ready(),
        ensures
            final(self).input_bytes@ == old(self).input_bytes@,
            final(self).is_std == old(self).is_std,
            final(self).errors@ == old(self).errors@,
            final(self).token_trees@ == old(self).token_trees@,
            step_agrees(old(self).model(), final(self).model(), old(self).input_bytes@, r),
    {
        let c = self.cursor;
        let c0 = self.byte(c);
        if is_digit(c0) {
            self.buffer2.push(c0 as u8);
            self.cursor = c + 1;
        } else if c0 == 95 {
            self.cursor = c + 1;
        } else if c0 == 101 || c0 == 69 {
            // exponents are not lexed yet; `ready` rules this out
            return None;
        } else {
            let s1 = self.buffer1_copy();
            let s2 = self.buffer2_copy();
            let id1 = self.intern(s1);
            let id2 = self.intern(s2);
            let start = self.token_start;
            self.push_token(
                TokenKind::Number(NumberLiteral { digits: id1, fraction: Some(id2) }),
                start,
                c,
            );
            self.state = LexState::Init;
        }
        Some(Ok(false))
    }

    /// A step inside a comment.
    pub fn step_comment(&mut self) -> (r: Option<Result<bool, Error>>)
        requires
            old(self).state == LexState::LineComment || old(self).state == LexState::DocComment
                || old(self).state == LexState::BlockComment,
            old(self).ready(),
        ensures
            final(self).input_bytes@ == old(self).input_bytes@,
            final(self).is_std == old(self).is_std,
            final(self).errors@ == old(self).errors@,
            final(self).token_trees@ == old(self).token_trees@,
            step_agrees(old(self).model(), final(self).model(), old(self).input_bytes@, r),
    {
        let c = self.cursor;
        let c0 = self.byte(c);
        let c1 = self.byte(c + 1);
        match self.state {
            LexState::LineComment => {
                if c0 == 10 {
                    self.state = LexState::Init;
                    self.cursor = c + 1;
                } else if c0 >= 0 {
                    self.cursor = c + 1;
                } else {
                    self.state = LexState::Init;
                }
            },
            LexState::DocComment => {
                if c0 == 10 {
                    let s = self.buffer1_copy();
                    let id = self.intern(s);
                    let start = self.token_start;
                    self.push_token(TokenKind::DocComment(id), start, c);
                    self.state = LexState::Init;
                    self.cursor = c + 1;
                } else if c0 >= 0 {
                    self.buffer1.push(c0 as u8);
                    self.cursor = c + 1;
                } else {
                    return Some(Err(
                        Error { kind: ErrorKind::UnexpectedEof, span: ErrorSpan::Eof, note: None },
                    ));
                }
            },
            _ => {
                if c0 == 42 && c1 == 47 {
                    self.state = LexState::Init;
                    self.cursor = c + 2;
                } else if c0 >= 0 {
                    self.cursor = c + 1;
                } else {
                    let start = self.token_start;
                    return Some(Err(range_error(ErrorKind::UnterminatedBlockComment, start, start + 2)));
                }
            },
        }
        Some(Ok(false))
    }

    /// One step of the lexer: `Some(Ok(true))` at the end of the input, `Some(Ok(false))`
    /// to go on.
    pub fn step(&mut self) -> (r: Option<Result<bool, Error>>)
        requires
            old(self).ready(),
        ensures
            final(self).input_bytes@ == old(self).input_bytes@,
            final(self).is_std == old(self).is_std,
            final(self).errors@ == old(self).errors@,
            final(self).token_trees@ == old(self).token_trees@,
            step_agrees(old(self).model(), final(self).model(), old(self).input_bytes@, r),
    {
        match self.state {
            LexState::Init => self.step_init(),
            LexState::StringPrefix => self.step_string_prefix(),
            LexState::StringInit { binary, format, raw } => self.step_string_init(
                binary,
                format,
                raw,
            ),
            LexState::String { binary, raw, quote_count } => if raw {
                self.step_raw_string(binary, quote_count)
            } else {
                self.step_string(binary, quote_count)
            },
            LexState::FormattedString { .. } => self.step_formatted_string(),
            LexState::Char { binary } => self.step_char(binary),
            LexState::Identifier => self.step_identifier(),
            LexState::FieldModifier => self.step_field_modifier(),
            LexState::Integer => self.step_integer(),
            LexState::Fraction => self.step_fraction(),
            _ => self.step_comment(),
        }
    }
}

} // verus!
