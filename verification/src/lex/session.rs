//! The lexer's session: the input, the state machine's state, the tokens and
//! the string table.
use crate::lex::machine::{
    at, lex_wf, quote_run, span_of, step_spec, LexModel, LexState, Outcome,
};
use crate::lex::token::{Error, ErrorKind, ErrorSpan, Note, Span, Token, TokenKind};
use crate::lex::tree::TokenTree;
use vstd::prelude::*;

verus! {

pub struct Session {
    pub input_bytes: Vec<u8>,
    pub state: LexState,
    pub cursor: usize,
    pub tokens: Vec<Token>,
    pub is_std: bool,
    /// The closing byte and the span of each open group, innermost last.
    pub group_stack: Vec<(u8, Span)>,
    /// Where the token being read started.
    pub token_start: usize,
    /// Identifier, integer, string and doc comment bytes.
    pub buffer1: Vec<u8>,
    /// The digits after the dot of a number.
    pub buffer2: Vec<u8>,
    /// What each string index of a token stands for.
    pub strings: Vec<Vec<u8>>,
    pub errors: Vec<Error>,
    /// The tokens grouped by their delimiters, once lexing has succeeded.
    pub token_trees: Vec<TokenTree>,
}

/// The string table as byte sequences.
pub open spec fn table_view(v: Seq<Vec<u8>>) -> Seq<Seq<u8>> {
    v.map_values(|x: Vec<u8>| x@)
}

/// How a step ended, as the lexer's loop sees it: `Ok(true)` at the end of
/// the input, `Ok(false)` to go on, `None` at a construct that is not lexed
/// yet.
pub open spec fn step_agrees(
    before: LexModel,
    after: LexModel,
    inp: Seq<u8>,
    r: Option<Result<bool, Error>>,
) -> bool {
    let (m2, o) = step_spec(before, inp);
    match o {
        Outcome::Continue => r == Some(Ok::<bool, Error>(false)) && after == m2,
        Outcome::Eof => r == Some(Ok::<bool, Error>(true)) && after == m2,
        Outcome::Fail(e) => r == Some(Err::<bool, Error>(e)) && after == m2,
        Outcome::Panic => r is None,
    }
}

pub fn range_error(kind: ErrorKind, s: usize, e: usize) -> (r: Error)
    ensures
        r == (Error { kind, span: ErrorSpan::Range(span_of(s as int, e as int)), note: None }),
{
    Error { kind, span: ErrorSpan::Range(Span { start: s, end: e }), note: None }
}

pub fn noted_error(kind: ErrorKind, s: usize, e: usize, note: Note) -> (r: Error)
    ensures
        r == (Error {
            kind,
            span: ErrorSpan::Range(span_of(s as int, e as int)),
            note: Some(note),
        }),
{
    Error { kind, span: ErrorSpan::Range(Span { start: s, end: e }), note: Some(note) }
}

/// Counts the double quotes that follow one another from `cursor`; a run of
/// 256 or more is an error.
pub fn count_quotes(buffer: &[u8], cursor: usize) -> (r: Result<usize, ()>)
    ensures
        match r {
            Ok(n) => n == quote_run(buffer@, cursor as int) && n < 256,
            Err(_) => quote_run(buffer@, cursor as int) >= 256,
        },
{
    if cursor >= buffer.len() {
        return Ok(0);
    }
    let mut count: usize = 0;
    let mut i = cursor;
    while i < buffer.len()
        invariant
            count < 256,
            i == cursor + count,
            i <= buffer@.len(),
            count + quote_run(buffer@, i as int) == quote_run(buffer@, cursor as int),
        decreases buffer@.len() - i,
    {
        if buffer[i] == 34 {
            count = count + 1;
            i = i + 1;
            if count == 256 {
                return Err(());
            }
        } else {
            return Ok(count);
        }
    }
    Ok(count)
}

impl Session {
    pub open spec fn model(&self) -> LexModel {
        LexModel {
            state: self.state,
            cursor: self.cursor as int,
            token_start: self.token_start as int,
            tokens: self.tokens@,
            group_stack: self.group_stack@,
            buffer1: self.buffer1@,
            buffer2: self.buffer2@,
            strings: table_view(self.strings@),
        }
    }

    /// The session is between steps.
    pub open spec fn ready(&self) -> bool {
        lex_wf(self.model(), self.input_bytes@)
    }

    /// The byte at `i`, or -1 past the end.
    pub fn byte(&self, i: usize) -> (r: i32)
        ensures
            r == at(self.input_bytes@, i as int),
    {
        if i < self.input_bytes.len() {
            self.input_bytes[i] as i32
        } else {
            -1
        }
    }

    pub fn push_token(&mut self, kind: TokenKind, s: usize, e: usize)
        ensures
            final(self).model() == old(self).model().push_token(kind, s as int, e as int),
            final(self).input_bytes@ == old(self).input_bytes@,
            final(self).is_std == old(self).is_std,
            final(self).errors@ == old(self).errors@,
            final(self).token_trees@ == old(self).token_trees@,
    {
        self.tokens.push(Token { kind, span: Span { start: s, end: e } });
    }

    /// Adds `s` to the string table and returns its index.
    pub fn intern(&mut self, s: Vec<u8>) -> (id: usize)
        ensures
            id == old(self).model().next_string(),
            final(self).model() == old(self).model().intern(s@),
            final(self).input_bytes@ == old(self).input_bytes@,
            final(self).is_std == old(self).is_std,
            final(self).errors@ == old(self).errors@,
            final(self).token_trees@ == old(self).token_trees@,
    {
        let id = self.strings.len();
        self.strings.push(s);
        proof {
            assert(table_view(self.strings@) =~= table_view(old(self).strings@).push(s@));
        }
        id
    }

    /// A copy of `buffer1`.
    pub fn buffer1_copy(&self) -> (r: Vec<u8>)
        ensures
            r@ == self.buffer1@,
    {
        let mut r: Vec<u8> = Vec::new();
        let mut i: usize = 0;
        while i < self.buffer1.len()
            invariant
                i <= self.buffer1@.len(),
                r@ == self.buffer1@.subrange(0, i as int),
            decreases self.buffer1@.len() - i,
        {
            r.push(self.buffer1[i]);
            i = i + 1;
            assert(r@ =~= self.buffer1@.subrange(0, i as int));
        }
        assert(r@ =~= self.buffer1@);
        r
    }

    /// A copy of `buffer2`.
    pub fn buffer2_copy(&self) -> (r: Vec<u8>)
        ensures
            r@ == self.buffer2@,
    {
        let mut r: Vec<u8> = Vec::new();
        let mut i: usize = 0;
        while i < self.buffer2.len()
            invariant
                i <= self.buffer2@.len(),
                r@ == self.buffer2@.subrange(0, i as int),
            decreases self.buffer2@.len() - i,
        {
            r.push(self.buffer2[i]);
            i = i + 1;
            assert(r@ =~= self.buffer2@.subrange(0, i as int));
        }
        assert(r@ =~= self.buffer2@);
        r
    }

    /// Appends `l` input bytes from `from` to `buffer1`.
    pub fn take_bytes(&mut self, from: usize, l: usize)
        requires
            from + l <= old(self).input_bytes@.len(),
        ensures
            final(self).model() == old(self).model().with_buffer1(
                old(self).buffer1@ + old(self).input_bytes@.subrange(from as int, from + l),
            ),
            final(self).input_bytes@ == old(self).input_bytes@,
            final(self).is_std == old(self).is_std,
            final(self).errors@ == old(self).errors@,
            final(self).token_trees@ == old(self).token_trees@,
    {
        let mut k: usize = 0;
        while k < l
            invariant
                k <= l,
                from + l <= self.input_bytes@.len(),
                self.input_bytes@ == old(self).input_bytes@,
                self.is_std == old(self).is_std,
                self.errors@ == old(self).errors@,
                self.token_trees@ == old(self).token_trees@,
                self.model() == old(self).model().with_buffer1(
                    old(self).buffer1@ + old(self).input_bytes@.subrange(from as int, from + k),
                ),
            decreases l - k,
        {
            let n = self.input_bytes.len();
            assert(from + k < n);
            let b = self.input_bytes[from + k];
            self.buffer1.push(b);
            k = k + 1;
            assert(self.buffer1@ =~= old(self).buffer1@ + old(self).input_bytes@.subrange(
                from as int,
                from + k,
            ));
        }
    }
}

} // verus!
