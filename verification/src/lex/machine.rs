//! The lexer's state machine, stated as spec functions over the input.
//!
//! A byte of the input is read as an `i32`; `-1` stands for the end of the
//! input.
use crate::lex::token::{
    Delim, Error, ErrorKind, ErrorSpan, Note, NumberLiteral, Punct, Span, Token, TokenKeyword,
    TokenKind, Unsupported,
};
use vstd::prelude::*;

verus! {

// ---------------------------------------------------------------------------
// Classes of bytes
// ---------------------------------------------------------------------------

#[verifier::allow_in_spec]
pub fn is_digit(c: i32) -> bool
    returns
        48 <= c <= 57,
{
    48 <= c && c <= 57
}

#[verifier::allow_in_spec]
pub fn is_lower(c: i32) -> bool
    returns
        97 <= c <= 122,
{
    97 <= c && c <= 122
}

#[verifier::allow_in_spec]
pub fn is_alpha(c: i32) -> bool
    returns
        (97 <= c <= 122) || (65 <= c <= 90),
{
    (97 <= c && c <= 122) || (65 <= c && c <= 90)
}

/// `a-z`, `A-Z` or `_`.
#[verifier::allow_in_spec]
pub fn is_ident_start(c: i32) -> bool
    returns
        (97 <= c <= 122) || (65 <= c <= 90) || c == 95,
{
    (97 <= c && c <= 122) || (65 <= c && c <= 90) || c == 95
}

/// `0-9`, `a-z`, `A-Z` or `_`.
#[verifier::allow_in_spec]
pub fn is_ident_char(c: i32) -> bool
    returns
        (48 <= c <= 57) || (97 <= c <= 122) || (65 <= c <= 90) || c == 95,
{
    (48 <= c && c <= 57) || (97 <= c && c <= 122) || (65 <= c && c <= 90) || c == 95
}

/// `"` or `'`.
#[verifier::allow_in_spec]
pub fn is_quote(c: i32) -> bool
    returns
        c == 34 || c == 39,
{
    c == 34 || c == 39
}

#[verifier::allow_in_spec]
pub fn is_hex(c: i32) -> bool
    returns
        (48 <= c <= 57) || (97 <= c <= 102) || (65 <= c <= 70),
{
    (48 <= c && c <= 57) || (97 <= c && c <= 102) || (65 <= c && c <= 70)
}

/// A continuation byte of UTF-8.
#[verifier::allow_in_spec]
pub fn is_cont(c: i32) -> bool
    returns
        128 <= c <= 191,
{
    128 <= c && c <= 191
}

/// A string prefix letter: `b`, `f` or `r`.
#[verifier::allow_in_spec]
pub fn is_prefix_letter(c: i32) -> bool
    returns
        c == 98 || c == 102 || c == 114,
{
    c == 98 || c == 102 || c == 114
}

/// The letters that name a base after a leading `0` or `#`: `xXoObB`.
#[verifier::allow_in_spec]
pub fn is_base_letter(c: i32) -> bool
    returns
        c == 120 || c == 88 || c == 111 || c == 79 || c == 98 || c == 66,
{
    c == 120 || c == 88 || c == 111 || c == 79 || c == 98 || c == 66
}

/// Space, tab or newline.
#[verifier::allow_in_spec]
pub fn is_space(c: i32) -> bool
    returns
        c == 32 || c == 9 || c == 10,
{
    c == 32 || c == 9 || c == 10
}

/// `[`, `{` or `(`.
#[verifier::allow_in_spec]
pub fn is_open_delim(c: i32) -> bool
    returns
        c == 91 || c == 123 || c == 40,
{
    c == 91 || c == 123 || c == 40
}

/// `]`, `}` or `)`.
#[verifier::allow_in_spec]
pub fn is_close_delim(c: i32) -> bool
    returns
        c == 93 || c == 125 || c == 41,
{
    c == 93 || c == 125 || c == 41
}

/// The first byte of a possible two-byte punctuation: `!&+-.<=>|`.
#[verifier::allow_in_spec]
pub fn is_punct_first(c: i32) -> bool
    returns
        c == 33 || c == 38 || c == 43 || c == 45 || c == 46 || c == 60 || c == 61 || c == 62
            || c == 124,
{
    c == 33 || c == 38 || c == 43 || c == 45 || c == 46 || c == 60 || c == 61 || c == 62
        || c == 124
}

/// The second byte of a possible two-byte punctuation: `&+.<=>|`.
#[verifier::allow_in_spec]
pub fn is_punct_second(c: i32) -> bool
    returns
        c == 38 || c == 43 || c == 46 || c == 60 || c == 61 || c == 62 || c == 124,
{
    c == 38 || c == 43 || c == 46 || c == 60 || c == 61 || c == 62 || c == 124
}

/// A byte that is a punctuation of its own: ``!$%&*+,-./:;<=>?@^|~``.
#[verifier::allow_in_spec]
pub fn is_single_punct(c: i32) -> bool
    returns
        c == 33 || c == 36 || c == 37 || c == 38 || c == 42 || c == 43 || c == 44 || c == 45
            || c == 46 || c == 47 || c == 58 || c == 59 || c == 60 || c == 61 || c == 62 || c
            == 63 || c == 64 || c == 94 || c == 124 || c == 126,
{
    c == 33 || c == 36 || c == 37 || c == 38 || c == 42 || c == 43 || c == 44 || c == 45 || c
        == 46 || c == 47 || c == 58 || c == 59 || c == 60 || c == 61 || c == 62 || c == 63 || c
        == 64 || c == 94 || c == 124 || c == 126
}

/// The bytes after a backslash that make a one-byte escape: `'"\nrt0`.
#[verifier::allow_in_spec]
pub fn is_simple_escape(c: i32) -> bool
    returns
        c == 39 || c == 34 || c == 92 || c == 110 || c == 114 || c == 116 || c == 48,
{
    c == 39 || c == 34 || c == 92 || c == 110 || c == 114 || c == 116 || c == 48
}

/// The byte that a one-byte escape stands for.
pub open spec fn escaped(c: i32) -> u8 {
    if c == 110 {
        10u8
    } else if c == 114 {
        13u8
    } else if c == 116 {
        9u8
    } else if c == 48 {
        0u8
    } else {
        c as u8
    }
}

pub open spec fn hex_value(c: i32) -> u32 {
    if 48 <= c <= 57 {
        (c - 48) as u32
    } else if 97 <= c <= 102 {
        (c - 87) as u32
    } else {
        (c - 55) as u32
    }
}

/// The closing byte of an opening delimiter.
pub open spec fn closing_of(c: i32) -> u8 {
    if c == 91 {
        93u8
    } else if c == 123 {
        125u8
    } else {
        41u8
    }
}

pub open spec fn delim_of(c: i32) -> Delim {
    if c == 91 {
        Delim::Bracket
    } else if c == 123 {
        Delim::Brace
    } else {
        Delim::Parenthesis
    }
}

/// The two-byte punctuation that `x` and `y` spell, if any.
pub open spec fn punct_pair(x: i32, y: i32) -> Option<Punct> {
    if x == 33 && y == 61 {
        Some(Punct::Neq)
    } else if x == 38 && y == 38 {
        Some(Punct::AndAnd)
    } else if x == 43 && y == 43 {
        Some(Punct::Concat)
    } else if x == 45 && y == 62 {
        Some(Punct::ReturnType)
    } else if x == 46 && y == 46 {
        Some(Punct::DotDot)
    } else if x == 60 && y == 60 {
        Some(Punct::Shl)
    } else if x == 60 && y == 61 {
        Some(Punct::Leq)
    } else if x == 61 && y == 61 {
        Some(Punct::Equal)
    } else if x == 61 && y == 62 {
        Some(Punct::Arrow)
    } else if x == 62 && y == 61 {
        Some(Punct::Geq)
    } else if x == 62 && y == 62 {
        Some(Punct::Shr)
    } else if x == 124 && y == 124 {
        Some(Punct::OrOr)
    } else {
        None
    }
}

/// How a keyword is spelled.
pub open spec fn keyword_spelling(k: TokenKeyword) -> Seq<u8> {
    match k {
        TokenKeyword::As => seq![97u8, 115],
        TokenKeyword::Assert => seq![97u8, 115, 115, 101, 114, 116],
        TokenKeyword::Else => seq![101u8, 108, 115, 101],
        TokenKeyword::Enum => seq![101u8, 110, 117, 109],
        TokenKeyword::Fn => seq![102u8, 110],
        TokenKeyword::If => seq![105u8, 102],
        TokenKeyword::Let => seq![108u8, 101, 116],
        TokenKeyword::Match => seq![109u8, 97, 116, 99, 104],
        TokenKeyword::Mod => seq![109u8, 111, 100],
        TokenKeyword::Pub => seq![112u8, 117, 98],
        TokenKeyword::Struct => seq![115u8, 116, 114, 117, 99, 116],
        TokenKeyword::Type => seq![116u8, 121, 112, 101],
        TokenKeyword::Use => seq![117u8, 115, 101],
    }
}

/// The keyword that `s` spells, if any.
pub open spec fn keyword_of(s: Seq<u8>) -> Option<TokenKeyword> {
    if s == keyword_spelling(TokenKeyword::As) {
        Some(TokenKeyword::As)
    } else if s == keyword_spelling(TokenKeyword::Assert) {
        Some(TokenKeyword::Assert)
    } else if s == keyword_spelling(TokenKeyword::Else) {
        Some(TokenKeyword::Else)
    } else if s == keyword_spelling(TokenKeyword::Enum) {
        Some(TokenKeyword::Enum)
    } else if s == keyword_spelling(TokenKeyword::Fn) {
        Some(TokenKeyword::Fn)
    } else if s == keyword_spelling(TokenKeyword::If) {
        Some(TokenKeyword::If)
    } else if s == keyword_spelling(TokenKeyword::Let) {
        Some(TokenKeyword::Let)
    } else if s == keyword_spelling(TokenKeyword::Match) {
        Some(TokenKeyword::Match)
    } else if s == keyword_spelling(TokenKeyword::Mod) {
        Some(TokenKeyword::Mod)
    } else if s == keyword_spelling(TokenKeyword::Pub) {
        Some(TokenKeyword::Pub)
    } else if s == keyword_spelling(TokenKeyword::Struct) {
        Some(TokenKeyword::Struct)
    } else if s == keyword_spelling(TokenKeyword::Type) {
        Some(TokenKeyword::Type)
    } else if s == keyword_spelling(TokenKeyword::Use) {
        Some(TokenKeyword::Use)
    } else {
        None
    }
}

// ---------------------------------------------------------------------------
// Code points
// ---------------------------------------------------------------------------

/// The value of a two-, three- or four-byte UTF-8 sequence, read by its
/// shape alone.
pub open spec fn decode2(x: int, y: int) -> int {
    (x - 192) * 64 + (y - 128)
}

pub open spec fn decode3(x: int, y: int, z: int) -> int {
    (x - 224) * 4096 + (y - 128) * 64 + (z - 128)
}

pub open spec fn decode4(x: int, y: int, z: int, w: int) -> int {
    (x - 240) * 262144 + (y - 128) * 4096 + (z - 128) * 64 + (w - 128)
}

/// A Unicode scalar value: what `char::from_u32` accepts.
pub open spec fn is_scalar(n: int) -> bool {
    0 <= n <= 0x10ffff && !(0xd800 <= n <= 0xdfff)
}

/// The characters allowed in an identifier: ASCII letters, digits and `_`,
/// CJK ideographs, hiragana, katakana, hangul syllables, and some symbols and
/// emoji.
pub open spec fn allowed_in_identifier(n: int) -> bool {
    ||| 48 <= n <= 57
    ||| 97 <= n <= 122
    ||| 65 <= n <= 90
    ||| n == 95
    ||| 0x3400 <= n <= 0x9fff
    ||| 0x3041 <= n <= 0x3096
    ||| 0x30a1 <= n <= 0x30fa
    ||| 0xac00 <= n <= 0xd7a3
    ||| 0x2600 <= n <= 0x2764
    ||| 0x1f300 <= n <= 0x1f64f
    ||| 0x1f680 <= n <= 0x1f6fc
    ||| 0x1f90c <= n <= 0x1faf8
}

/// The byte at `i` of `s`, or 0 past its end.
pub open spec fn byte_or_zero(s: Seq<u8>, i: int) -> int {
    if 0 <= i < s.len() {
        s[i] as int
    } else {
        0
    }
}

/// The length of the UTF-8 sequence that starts with the byte `c`, read by
/// its shape.
pub open spec fn seq_len_of(c: int) -> int {
    if c < 128 {
        1
    } else if c < 224 {
        2
    } else if c < 240 {
        3
    } else {
        4
    }
}

/// The code point of the sequence at `i` of `s`, and whether it is well
/// formed UTF-8 (not overlong, not a surrogate, not past U+10FFFF).
pub open spec fn decode_at(s: Seq<u8>, i: int) -> (int, bool) {
    let x = byte_or_zero(s, i);
    let y = byte_or_zero(s, i + 1);
    let z = byte_or_zero(s, i + 2);
    let w = byte_or_zero(s, i + 3);
    if x < 128 {
        (x, true)
    } else if x < 224 {
        let n = decode2(x, y);
        (n, n >= 0x80)
    } else if x < 240 {
        let n = decode3(x, y, z);
        (n, n >= 0x800 && !(0xd800 <= n <= 0xdfff))
    } else {
        let n = decode4(x, y, z, w);
        (n, 0x10000 <= n <= 0x10ffff)
    }
}

/// The first character from byte `i` of an identifier's bytes that is not
/// allowed in an identifier; a malformed sequence reads as U+FFFD, which is
/// not allowed.
pub open spec fn first_bad_char(s: Seq<u8>, i: int) -> Option<u32>
    decreases s.len() - i,
{
    if i < 0 || i >= s.len() {
        None
    } else {
        let (n, ok) = decode_at(s, i);
        if !ok {
            Some(0xfffdu32)
        } else if !allowed_in_identifier(n) {
            Some(n as u32)
        } else {
            let next = i + seq_len_of(s[i] as int);
            if next < s.len() {
                first_bad_char(s, next)
            } else {
                None
            }
        }
    }
}

// ---------------------------------------------------------------------------
// Scans over the input
// ---------------------------------------------------------------------------

/// The byte at `i`, or -1 outside the input.
pub open spec fn at(inp: Seq<u8>, i: int) -> i32 {
    if 0 <= i < inp.len() {
        inp[i] as i32
    } else {
        -1i32
    }
}

/// How many double quotes follow one another from `i`.
pub open spec fn quote_run(inp: Seq<u8>, i: int) -> nat
    decreases inp.len() - i,
{
    if 0 <= i < inp.len() && inp[i] == 34 {
        1 + quote_run(inp, i + 1)
    } else {
        0
    }
}

/// The run of quotes at `i`, or 256 for a run that long or longer.
pub open spec fn quotes_or_256(inp: Seq<u8>, i: int) -> int {
    if quote_run(inp, i) < 256 {
        quote_run(inp, i) as int
    } else {
        256
    }
}

/// The digits of a byte literal from `i`, where `_` may stand between them:
/// where the digits end, the digits, and whether a letter stopped them.
pub open spec fn byte_digits(inp: Seq<u8>, i: int) -> (int, Seq<u8>, bool)
    decreases inp.len() - i,
{
    let x = at(inp, i);
    if i < 0 || i >= inp.len() {
        (i, seq![], false)
    } else if is_digit(x) {
        let r = byte_digits(inp, i + 1);
        (r.0, seq![x as u8] + r.1, r.2)
    } else if is_alpha(x) {
        (i, seq![], true)
    } else if x == 95 {
        byte_digits(inp, i + 1)
    } else {
        (i, seq![], false)
    }
}

/// The value of a string of decimal digits.
pub open spec fn decimal_value(s: Seq<u8>) -> nat
    decreases s.len(),
{
    if s.len() == 0 {
        0
    } else {
        decimal_value(s.drop_last()) * 10 + (s.last() - 48) as nat
    }
}

/// How a `\u{...}` escape ends.
pub enum UnicodeScan {
    /// At `}`; the position after it and the value.
    Closed(int, int),
    /// The value passed U+10FFFF.
    TooBig,
    /// A byte that is neither a hex digit nor `}`, at this position.
    BadByte(int),
    /// The input ended.
    Eof,
}

/// Reads the hex digits of a `\u{...}` escape from `i`, with `n` the value so far.
pub open spec fn unicode_scan(inp: Seq<u8>, i: int, n: int) -> UnicodeScan
    decreases inp.len() - i,
{
    let x = at(inp, i);
    if 0 <= i < inp.len() && is_hex(x) {
        let n2 = n * 16 + hex_value(x);
        if n2 > 0x10ffff {
            UnicodeScan::TooBig
        } else {
            unicode_scan(inp, i + 1, n2)
        }
    } else if x == 125 {
        UnicodeScan::Closed(i + 1, n)
    } else if x >= 0 {
        UnicodeScan::BadByte(i)
    } else {
        UnicodeScan::Eof
    }
}

// ---------------------------------------------------------------------------
// The machine
// ---------------------------------------------------------------------------

#[derive(Clone, Copy, Debug, PartialEq, Eq, Structural)]
pub enum LexState {
    Init,
    /// Reading the `b`, `f` or `r` before a string or char literal.
    StringPrefix,
    /// At the quotes that open a literal.
    StringInit { binary: bool, format: bool, raw: bool },
    String { binary: bool, raw: bool, quote_count: usize },
    Char { binary: bool },
    FormattedString { raw: bool, quote_count: usize },
    Identifier,
    FieldModifier,
    Integer,
    Fraction,
    LineComment,
    DocComment,
    BlockComment,
}

/// Everything the lexer keeps between steps, but the input.
#[verifier::ext_equal]
pub struct LexModel {
    pub state: LexState,
    pub cursor: int,
    /// Where the token being read started.
    pub token_start: int,
    pub tokens: Seq<Token>,
    /// The closing byte and the span of each open group, innermost last.
    pub group_stack: Seq<(u8, Span)>,
    /// Identifier, integer, string and doc comment bytes.
    pub buffer1: Seq<u8>,
    /// The digits after the dot of a number.
    pub buffer2: Seq<u8>,
    /// The string table: what each string index stands for.
    pub strings: Seq<Seq<u8>>,
}

/// What a step ends in.
pub enum Outcome {
    Continue,
    /// The input ended with no group open.
    Eof,
    Fail(Error),
    /// A construct that the lexer does not handle and on which it panics.
    Panic,
}

pub open spec fn span_of(s: int, e: int) -> Span {
    Span { start: s as usize, end: e as usize }
}

pub open spec fn fail(kind: ErrorKind, s: int, e: int) -> Outcome {
    Outcome::Fail(Error { kind, span: ErrorSpan::Range(span_of(s, e)), note: None })
}

pub open spec fn fail_note(kind: ErrorKind, s: int, e: int, note: Note) -> Outcome {
    Outcome::Fail(Error { kind, span: ErrorSpan::Range(span_of(s, e)), note: Some(note) })
}

pub open spec fn fail_eof(kind: ErrorKind) -> Outcome {
    Outcome::Fail(Error { kind, span: ErrorSpan::Eof, note: None })
}

/// The note of a byte char literal whose value `n` is not ASCII.
pub open spec fn byte_char_note(n: int) -> Note {
    if n < 256 {
        Note::PerhapsByte(n as u32)
    } else {
        Note::ByteRange
    }
}

impl LexModel {
    pub open spec fn goto(self, state: LexState) -> LexModel {
        LexModel { state, ..self }
    }

    pub open spec fn move_to(self, cursor: int) -> LexModel {
        LexModel { cursor, ..self }
    }

    pub open spec fn start_at(self, token_start: int) -> LexModel {
        LexModel { token_start, ..self }
    }

    pub open spec fn with_buffer1(self, buffer1: Seq<u8>) -> LexModel {
        LexModel { buffer1, ..self }
    }

    pub open spec fn with_buffer2(self, buffer2: Seq<u8>) -> LexModel {
        LexModel { buffer2, ..self }
    }

    pub open spec fn push_token(self, kind: TokenKind, s: int, e: int) -> LexModel {
        LexModel { tokens: self.tokens.push(Token { kind, span: span_of(s, e) }), ..self }
    }

    /// Adds `s` to the string table; its index is the table's old length.
    pub open spec fn intern(self, s: Seq<u8>) -> LexModel {
        LexModel { strings: self.strings.push(s), ..self }
    }

    pub open spec fn next_string(self) -> usize {
        self.strings.len() as usize
    }
}

pub open spec fn init_step(m: LexModel, inp: Seq<u8>) -> (LexModel, Outcome) {
    let c = m.cursor;
    let c0 = at(inp, c);
    let c1 = at(inp, c + 1);
    let c2 = at(inp, c + 2);
    if (is_lower(c0) && is_lower(c1) && is_quote(c2)) || (is_lower(c0) && is_quote(c1))
        || is_quote(c0) {
        (m.goto(LexState::StringPrefix), Outcome::Continue)
    } else if is_ident_start(c0) {
        (
            m.with_buffer1(seq![c0 as u8]).start_at(c).goto(LexState::Identifier).move_to(c + 1),
            Outcome::Continue,
        )
    } else if c0 == 96 && is_ident_start(c1) {
        (
            m.with_buffer1(seq![c1 as u8]).start_at(c).goto(LexState::FieldModifier).move_to(
                c + 2,
            ),
            Outcome::Continue,
        )
    } else if is_digit(c0) && c1 == 46 && c2 == 46 {
        let number = NumberLiteral { digits: m.next_string(), fraction: None };
        (
            m.intern(seq![c0 as u8]).push_token(TokenKind::Number(number), c, c + 1).move_to(
                c + 1,
            ),
            Outcome::Continue,
        )
    } else if c0 == 48 && is_base_letter(c1) {
        (m, fail(ErrorKind::Unsupported(Unsupported::NonDecimalInteger), c, c + 2))
    } else if is_digit(c0) && is_alpha(c1) {
        (m, fail(ErrorKind::InvalidNumberLiteral, c + 1, c + 2))
    } else if c0 == 48 && c1 == 46 {
        (
            m.with_buffer1(seq![48u8]).with_buffer2(seq![]).start_at(c).goto(
                LexState::Fraction,
            ).move_to(c + 2),
            Outcome::Continue,
        )
    } else if c0 == 48 {
        let number = NumberLiteral { digits: m.next_string(), fraction: None };
        (
            m.intern(seq![48u8]).push_token(TokenKind::Number(number), c, c + 1).move_to(c + 1),
            Outcome::Continue,
        )
    } else if is_digit(c0) {
        (
            m.with_buffer1(seq![c0 as u8]).start_at(c).goto(LexState::Integer).move_to(c + 1),
            Outcome::Continue,
        )
    } else if c0 == 35 {
        byte_literal_step(m, inp)
    } else if c0 == 47 && c1 == 47 && c2 == 47 {
        (m.start_at(c).goto(LexState::DocComment).move_to(c + 3), Outcome::Continue)
    } else if c0 == 47 && c1 == 47 {
        (m.goto(LexState::LineComment).move_to(c + 2), Outcome::Continue)
    } else if c0 == 47 && c1 == 42 {
        (m.start_at(c).goto(LexState::BlockComment).move_to(c + 2), Outcome::Continue)
    } else if is_space(c0) {
        (m.move_to(c + 1), Outcome::Continue)
    } else if is_open_delim(c0) {
        let sp = span_of(c, c + 1);
        let m2 = LexModel { group_stack: m.group_stack.push((closing_of(c0), sp)), ..m };
        (
            m2.push_token(TokenKind::GroupDelim { delim: Some(delim_of(c0)), id: sp }, c, c + 1)
                .move_to(c + 1),
            Outcome::Continue,
        )
    } else if c0 == 92 && c1 == 40 {
        let sp = span_of(c, c + 2);
        let m2 = LexModel { group_stack: m.group_stack.push((41u8, sp)), ..m };
        (
            m2.push_token(TokenKind::GroupDelim { delim: Some(Delim::Lambda), id: sp }, c, c + 2)
                .move_to(c + 2),
            Outcome::Continue,
        )
    } else if is_close_delim(c0) {
        if m.group_stack.len() > 0 {
            let top = m.group_stack.last();
            if top.0 == c0 {
                let m2 = LexModel { group_stack: m.group_stack.drop_last(), ..m };
                (
                    m2.push_token(TokenKind::GroupDelim { delim: None, id: top.1 }, c, c + 1)
                        .move_to(c + 1),
                    Outcome::Continue,
                )
            } else {
                (
                    LexModel { group_stack: m.group_stack.drop_last(), ..m },
                    fail(ErrorKind::UnmatchedGroup { expected: top.0, got: c0 as u8 }, c, c + 1),
                )
            }
        } else {
            (m, fail_eof(ErrorKind::UnexpectedCharacter(c0 as u8)))
        }
    } else if c0 == 46 && c1 == 46 && c2 == 61 {
        (m.push_token(TokenKind::Punct(Punct::DotDotEq), c, c + 3).move_to(c + 3), Outcome::Continue)
    } else if is_punct_first(c0) && is_punct_second(c1) {
        match punct_pair(c0, c1) {
            Some(p) => (
                m.push_token(TokenKind::Punct(p), c, c + 2).move_to(c + 2),
                Outcome::Continue,
            ),
            None => (
                m.push_token(TokenKind::Punct(Punct::Single(c0 as u8)), c, c + 1).push_token(
                    TokenKind::Punct(Punct::Single(c1 as u8)),
                    c + 1,
                    c + 2,
                ).move_to(c + 2),
                Outcome::Continue,
            ),
        }
    } else if is_single_punct(c0) {
        (
            m.push_token(TokenKind::Punct(Punct::Single(c0 as u8)), c, c + 1).move_to(c + 1),
            Outcome::Continue,
        )
    } else if c0 >= 192 {
        (m.with_buffer1(seq![]).start_at(c).goto(LexState::Identifier), Outcome::Continue)
    } else if c0 >= 0 {
        (m, Outcome::Panic)
    } else if m.group_stack.len() > 0 {
        let top = m.group_stack.last();
        (
            LexModel { group_stack: m.group_stack.drop_last(), ..m },
            Outcome::Fail(
                Error {
                    kind: ErrorKind::UnclosedDelimiter(top.0),
                    span: ErrorSpan::Range(top.1),
                    note: None,
                },
            ),
        )
    } else {
        (m, Outcome::Eof)
    }
}

/// `#` and decimal digits: a byte.
pub open spec fn byte_literal_step(m: LexModel, inp: Seq<u8>) -> (LexModel, Outcome) {
    let c = m.cursor;
    if is_base_letter(at(inp, c + 1)) {
        (m, Outcome::Panic)
    } else {
        let (j, digits, letter) = byte_digits(inp, c + 1);
        if letter {
            (
                m,
                fail_note(
                    ErrorKind::InvalidByteLiteral,
                    j,
                    j + 1,
                    Note::InvalidDigit(at(inp, j) as u8),
                ),
            )
        } else if digits.len() == 0 {
            (m, fail(ErrorKind::InvalidByteLiteral, c, j))
        } else if decimal_value(digits) <= 255 {
            (
                m.push_token(TokenKind::Byte(decimal_value(digits) as u8), c, j).move_to(j),
                Outcome::Continue,
            )
        } else {
            (m, fail_note(ErrorKind::InvalidByteLiteral, c, j, Note::ByteRange))
        }
    }
}

/// The error kind of a bad prefix before the quote `q`.
pub open spec fn prefix_error(q: i32) -> ErrorKind {
    if q == 34 {
        ErrorKind::InvalidStringLiteralPrefix
    } else {
        ErrorKind::InvalidCharLiteralPrefix
    }
}

pub open spec fn string_prefix_step(m: LexModel, inp: Seq<u8>) -> (LexModel, Outcome) {
    let c = m.cursor;
    let c0 = at(inp, c);
    let c1 = at(inp, c + 1);
    let c2 = at(inp, c + 2);
    let br = (c0 == 98 && c1 == 114) || (c0 == 114 && c1 == 98);
    let fr = (c0 == 102 && c1 == 114) || (c0 == 114 && c1 == 102);
    if is_prefix_letter(c0) && is_prefix_letter(c1) && is_quote(c2) && c0 == c1 {
        (m, fail(prefix_error(c2), c, c + 2))
    } else if ((c0 == 98 && c1 == 102) || (c0 == 102 && c1 == 98)) && is_quote(c2) {
        (m, fail(prefix_error(c2), c, c + 2))
    } else if br && c2 == 34 {
        (
            m.goto(LexState::StringInit { binary: true, format: false, raw: true }).move_to(c + 2),
            Outcome::Continue,
        )
    } else if br && c2 == 39 {
        if c0 == 98 {
            (m, fail(ErrorKind::InvalidCharLiteralPrefix, c + 1, c + 2))
        } else {
            (m, fail(ErrorKind::InvalidCharLiteralPrefix, c, c + 1))
        }
    } else if fr && c2 == 34 {
        (
            m.goto(LexState::StringInit { binary: false, format: true, raw: true }).move_to(c + 2),
            Outcome::Continue,
        )
    } else if fr && c2 == 39 {
        (m, fail(ErrorKind::InvalidCharLiteralPrefix, c, c + 2))
    } else if is_prefix_letter(c0) && c1 == 34 {
        (
            m.goto(
                LexState::StringInit { binary: c0 == 98, format: c0 == 102, raw: c0 == 114 },
            ).move_to(c + 1),
            Outcome::Continue,
        )
    } else if c0 == 98 && c1 == 39 {
        (
            m.goto(LexState::StringInit { binary: true, format: false, raw: false }).move_to(
                c + 1,
            ),
            Outcome::Continue,
        )
    } else if (c0 == 102 || c0 == 114) && c1 == 39 {
        (m, fail(ErrorKind::InvalidCharLiteralPrefix, c, c + 1))
    } else if is_quote(c0) {
        (m.goto(LexState::StringInit { binary: false, format: false, raw: false }), Outcome::Continue)
    } else if is_lower(c0) && is_lower(c1) && is_quote(c2) {
        (m, fail(prefix_error(c2), c, c + 2))
    } else if is_lower(c0) && is_quote(c1) {
        (m, fail(prefix_error(c1), c, c + 1))
    } else {
        (m, Outcome::Panic)
    }
}

pub open spec fn string_init_step(m: LexModel, inp: Seq<u8>, binary: bool, format: bool, raw: bool) -> (
    LexModel,
    Outcome,
) {
    let c = m.cursor;
    let c0 = at(inp, c);
    let c1 = at(inp, c + 1);
    let c2 = at(inp, c + 2);
    if c0 == 34 && c1 == 34 && c2 == 34 {
        let qc = quotes_or_256(inp, c);
        if (qc % 2 == 0 && qc > 254) || (qc % 2 == 1 && qc > 127) {
            (m, fail(ErrorKind::TooManyQuotes, c, c + 1))
        } else if qc % 4 == 2 {
            if format {
                (m, Outcome::Panic)
            } else {
                let kind = TokenKind::String { binary, raw, s: m.next_string() };
                (
                    m.intern(seq![]).push_token(kind, c, c + qc).goto(LexState::Init).move_to(
                        c + qc,
                    ),
                    Outcome::Continue,
                )
            }
        } else if qc % 4 == 0 {
            (m, fail(ErrorKind::WrongNumberOfQuotesInRawStringLiteral, c, c + qc))
        } else if format {
            (
                m.start_at(c).goto(LexState::FormattedString { raw, quote_count: qc as usize })
                    .move_to(c + qc),
                Outcome::Continue,
            )
        } else {
            (
                m.start_at(c).with_buffer1(seq![]).goto(
                    LexState::String { binary, raw, quote_count: qc as usize },
                ).move_to(c + qc),
                Outcome::Continue,
            )
        }
    } else if c0 == 34 && c1 == 34 {
        if format {
            (m, Outcome::Panic)
        } else {
            let kind = TokenKind::String { binary, raw, s: m.next_string() };
            (
                m.intern(seq![]).push_token(kind, c, c + 2).goto(LexState::Init).move_to(c + 2),
                Outcome::Continue,
            )
        }
    } else if c0 == 39 && c1 == 39 {
        (m, fail(ErrorKind::EmptyCharLiteral, c, c + 2))
    } else if c0 == 34 {
        let m2 = m.with_buffer1(seq![]).start_at(c).move_to(c + 1);
        if format {
            (m2.goto(LexState::FormattedString { raw, quote_count: 1 }), Outcome::Continue)
        } else {
            (m2.goto(LexState::String { binary, raw, quote_count: 1 }), Outcome::Continue)
        }
    } else if c0 == 39 {
        (m.start_at(if binary && c > 0 { c - 1 } else { c }).goto(LexState::Char { binary }).move_to(c + 1), Outcome::Continue)
    } else {
        (m, Outcome::Panic)
    }
}

pub open spec fn raw_string_step(m: LexModel, inp: Seq<u8>, binary: bool, quote_count: usize) -> (
    LexModel,
    Outcome,
) {
    let c = m.cursor;
    let c0 = at(inp, c);
    let c1 = at(inp, c + 1);
    let c2 = at(inp, c + 2);
    if c0 == 34 && quote_count == 1 {
        let kind = TokenKind::String { binary, raw: true, s: m.next_string() };
        (
            m.intern(m.buffer1).push_token(kind, m.token_start, c + 1).goto(LexState::Init).move_to(
                c + 1,
            ),
            Outcome::Continue,
        )
    } else if c0 == 34 && c1 == 34 && c2 == 34 {
        if quote_count == 3 || quotes_or_256(inp, c) >= quote_count {
            (m, Outcome::Panic)
        } else {
            (m.with_buffer1(m.buffer1 + seq![34u8, 34, 34]).move_to(c + 3), Outcome::Continue)
        }
    } else if c0 >= 0 {
        (m.with_buffer1(m.buffer1.push(c0 as u8)).move_to(c + 1), Outcome::Continue)
    } else {
        (
            m,
            fail(
                ErrorKind::UnterminatedStringLiteral,
                m.token_start,
                m.token_start + quote_count,
            ),
        )
    }
}

/// Whether the bytes from `c` are one UTF-8 sequence by its shape, and how
/// long it is (0 for none).
pub open spec fn utf8_shape(c0: i32, c1: i32, c2: i32, c3: i32) -> int {
    if 0 <= c0 <= 127 {
        1
    } else if 192 <= c0 <= 223 && is_cont(c1) {
        2
    } else if 224 <= c0 <= 239 && is_cont(c1) && is_cont(c2) {
        3
    } else if 240 <= c0 <= 247 && is_cont(c1) && is_cont(c2) && is_cont(c3) {
        4
    } else {
        0
    }
}

pub open spec fn string_step(m: LexModel, inp: Seq<u8>, binary: bool, quote_count: usize) -> (
    LexModel,
    Outcome,
) {
    let c = m.cursor;
    let c0 = at(inp, c);
    let c1 = at(inp, c + 1);
    let c2 = at(inp, c + 2);
    let c3 = at(inp, c + 3);
    if c0 == 92 && is_simple_escape(c1) {
        (m.with_buffer1(m.buffer1.push(escaped(c1))).move_to(c + 2), Outcome::Continue)
    } else if c0 == 92 && c1 == 120 && is_hex(c2) && is_hex(c3) {
        (m, Outcome::Panic)
    } else if c0 == 92 && c1 >= 0 {
        (m, fail(ErrorKind::InvalidEscape, c + 1, c + 2))
    } else if c0 == 34 && quote_count == 1 {
        let kind = TokenKind::String { binary, raw: false, s: m.next_string() };
        (
            m.intern(m.buffer1).push_token(kind, m.token_start, c + 1).goto(LexState::Init)
                .move_to(c + 1),
            Outcome::Continue,
        )
    } else if c0 == 34 && c1 == 34 && c2 == 34 && quote_count >= 3 {
        (m, Outcome::Panic)
    } else if c0 >= 0 && utf8_shape(c0, c1, c2, c3) > 0 {
        let l = utf8_shape(c0, c1, c2, c3);
        (m.with_buffer1(m.buffer1 + inp.subrange(c, c + l)).move_to(c + l), Outcome::Continue)
    } else if c0 >= 0 {
        (m, fail(ErrorKind::InvalidUtf8, c, c + 1))
    } else {
        (
            m,
            fail(
                ErrorKind::UnterminatedStringLiteral,
                m.token_start,
                m.token_start + quote_count,
            ),
        )
    }
}

/// The token of a char literal of value `n`, ending at `e`.
pub open spec fn char_token(m: LexModel, binary: bool, n: int, e: int) -> (LexModel, Outcome) {
    if binary {
        if n < 128 {
            (
                m.push_token(TokenKind::Byte(n as u8), m.token_start, e).goto(LexState::Init)
                    .move_to(e),
                Outcome::Continue,
            )
        } else {
            (m, fail_note(ErrorKind::InvalidByteLiteral, m.token_start, e, byte_char_note(n)))
        }
    } else {
        (
            m.push_token(TokenKind::Char(n as u32), m.token_start, e).goto(LexState::Init).move_to(
                e,
            ),
            Outcome::Continue,
        )
    }
}

/// The code point that a char literal's bytes spell, and how many bytes.
pub open spec fn char_shape(c0: i32, c1: i32, c2: i32, c3: i32, c4: i32) -> (int, int) {
    if 0 <= c0 <= 127 && c1 == 39 {
        (c0 as int, 1)
    } else if 192 <= c0 <= 223 && is_cont(c1) && c2 == 39 {
        (decode2(c0 as int, c1 as int), 2)
    } else if 224 <= c0 <= 239 && is_cont(c1) && is_cont(c2) && c3 == 39 {
        (decode3(c0 as int, c1 as int, c2 as int), 3)
    } else if 240 <= c0 <= 247 && is_cont(c1) && is_cont(c2) && is_cont(c3) && c4 == 39 {
        (decode4(c0 as int, c1 as int, c2 as int, c3 as int), 4)
    } else {
        (0, 0)
    }
}

pub open spec fn char_step(m: LexModel, inp: Seq<u8>, binary: bool) -> (LexModel, Outcome) {
    let c = m.cursor;
    let c0 = at(inp, c);
    let c1 = at(inp, c + 1);
    let c2 = at(inp, c + 2);
    let c3 = at(inp, c + 3);
    let c4 = at(inp, c + 4);
    let ts = m.token_start;
    if c0 == 92 && is_simple_escape(c1) && c2 == 39 {
        char_token(m, binary, escaped(c1) as int, c + 3)
    } else if c0 == 92 && c1 == 120 && is_hex(c2) && is_hex(c3) && c4 == 39 {
        let v = hex_value(c2) * 16 + hex_value(c3);
        if binary && hex_value(c2) >= 8 {
            (m, fail_note(ErrorKind::InvalidByteLiteral, ts, c + 5, Note::PerhapsByte(v as u32)))
        } else {
            char_token(m, binary, v, c + 5)
        }
    } else if c0 == 92 && c1 == 117 && c2 == 123 {
        match unicode_scan(inp, c + 3, 0) {
            UnicodeScan::TooBig => (m, fail(ErrorKind::InvalidUnicodeCharacter, c, c + 1)),
            UnicodeScan::BadByte(j) => (m, fail(ErrorKind::InvalidUnicodeEscape, j, j + 1)),
            UnicodeScan::Eof => (m, fail_eof(ErrorKind::UnclosedDelimiter(125u8))),
            UnicodeScan::Closed(j, n) => if at(inp, j) == 39 {
                char_token(m, binary, n, j + 1)
            } else {
                (m, Outcome::Panic)
            },
        }
    } else if c0 == 92 && c1 >= 0 {
        (m, fail(ErrorKind::InvalidEscape, c + 1, c + 2))
    } else if c0 == 13 || c0 == 10 || c0 == 9 || c0 == 39 {
        (m, fail(ErrorKind::InvalidCharLiteral, c, c + 1))
    } else if char_shape(c0, c1, c2, c3, c4).1 > 0 {
        let (n, l) = char_shape(c0, c1, c2, c3, c4);
        if is_scalar(n) {
            char_token(m, binary, n, c + l + 1)
        } else {
            (m, fail(ErrorKind::InvalidUtf8, c, c + 1))
        }
    } else if c0 >= 128 {
        (m, fail(ErrorKind::InvalidUtf8, c, c + 1))
    } else if c0 >= 0 {
        (m, fail(ErrorKind::InvalidCharLiteral, ts, ts + 1))
    } else {
        (m, fail(ErrorKind::UnterminatedCharLiteral, ts, ts + 1))
    }
}

pub open spec fn identifier_step(m: LexModel, inp: Seq<u8>) -> (LexModel, Outcome) {
    let c = m.cursor;
    let c0 = at(inp, c);
    let c1 = at(inp, c + 1);
    let c2 = at(inp, c + 2);
    let c3 = at(inp, c + 3);
    if is_ident_char(c0) {
        (m.with_buffer1(m.buffer1.push(c0 as u8)).move_to(c + 1), Outcome::Continue)
    } else if c0 >= 128 && utf8_shape(c0, c1, c2, c3) > 0 {
        let l = utf8_shape(c0, c1, c2, c3);
        (m.with_buffer1(m.buffer1 + inp.subrange(c, c + l)).move_to(c + l), Outcome::Continue)
    } else if c0 >= 128 {
        (m, fail(ErrorKind::InvalidUtf8, c, c + 1))
    } else {
        match keyword_of(m.buffer1) {
            Some(k) => (
                m.push_token(TokenKind::Keyword(k), m.token_start, c).goto(LexState::Init),
                Outcome::Continue,
            ),
            None => match first_bad_char(m.buffer1, 0) {
                Some(ch) => (
                    m,
                    fail(
                        ErrorKind::InvalidCharacterInIdentifier(ch),
                        m.token_start,
                        m.token_start + 1,
                    ),
                ),
                None => (
                    m.intern(m.buffer1).push_token(
                        TokenKind::Identifier(m.next_string()),
                        m.token_start,
                        c,
                    ).goto(LexState::Init),
                    Outcome::Continue,
                ),
            },
        }
    }
}

pub open spec fn field_modifier_step(m: LexModel, inp: Seq<u8>) -> (LexModel, Outcome) {
    let c = m.cursor;
    let c0 = at(inp, c);
    if is_ident_char(c0) {
        (m.with_buffer1(m.buffer1.push(c0 as u8)).move_to(c + 1), Outcome::Continue)
    } else {
        (
            m.intern(m.buffer1).push_token(
                TokenKind::FieldModifier(m.next_string()),
                m.token_start,
                c,
            ).goto(LexState::Init),
            Outcome::Continue,
        )
    }
}

pub open spec fn integer_step(m: LexModel, inp: Seq<u8>) -> (LexModel, Outcome) {
    let c = m.cursor;
    let c0 = at(inp, c);
    if is_digit(c0) {
        (m.with_buffer1(m.buffer1.push(c0 as u8)).move_to(c + 1), Outcome::Continue)
    } else if is_alpha(c0) {
        (m, fail_note(ErrorKind::InvalidNumberLiteral, c, c + 1, Note::InvalidDigit(c0 as u8)))
    } else if c0 == 95 {
        (m.move_to(c + 1), Outcome::Continue)
    } else if c0 == 46 && at(inp, c + 1) != 46 {
        (m.with_buffer2(seq![]).goto(LexState::Fraction).move_to(c + 1), Outcome::Continue)
    } else {
        // the end of the number; before `..` the dots are a range, not a fraction
        let number = NumberLiteral { digits: m.next_string(), fraction: None };
        (
            m.intern(m.buffer1).push_token(TokenKind::Number(number), m.token_start, c).goto(
                LexState::Init,
            ),
            Outcome::Continue,
        )
    }
}

pub open spec fn fraction_step(m: LexModel, inp: Seq<u8>) -> (LexModel, Outcome) {
    let c = m.cursor;
    let c0 = at(inp, c);
    if is_digit(c0) {
        (m.with_buffer2(m.buffer2.push(c0 as u8)).move_to(c + 1), Outcome::Continue)
    } else if c0 == 95 {
        (m.move_to(c + 1), Outcome::Continue)
    } else if c0 == 101 || c0 == 69 {
        (m, Outcome::Panic)
    } else {
        let number = NumberLiteral {
            digits: m.next_string(),
            fraction: Some((m.strings.len() + 1) as usize),
        };
        (
            m.intern(m.buffer1).intern(m.buffer2).push_token(
                TokenKind::Number(number),
                m.token_start,
                c,
            ).goto(LexState::Init),
            Outcome::Continue,
        )
    }
}

pub open spec fn comment_step(m: LexModel, inp: Seq<u8>) -> (LexModel, Outcome) {
    let c = m.cursor;
    let c0 = at(inp, c);
    let c1 = at(inp, c + 1);
    match m.state {
        LexState::LineComment => if c0 == 10 {
            (m.goto(LexState::Init).move_to(c + 1), Outcome::Continue)
        } else if c0 >= 0 {
            (m.move_to(c + 1), Outcome::Continue)
        } else {
            (m.goto(LexState::Init), Outcome::Continue)
        },
        LexState::DocComment => if c0 == 10 {
            (
                m.intern(m.buffer1).push_token(
                    TokenKind::DocComment(m.next_string()),
                    m.token_start,
                    c,
                ).goto(LexState::Init).move_to(c + 1),
                Outcome::Continue,
            )
        } else if c0 >= 0 {
            (m.with_buffer1(m.buffer1.push(c0 as u8)).move_to(c + 1), Outcome::Continue)
        } else {
            (m, fail_eof(ErrorKind::UnexpectedEof))
        },
        _ => if c0 == 42 && c1 == 47 {
            (m.goto(LexState::Init).move_to(c + 2), Outcome::Continue)
        } else if c0 >= 0 {
            (m.move_to(c + 1), Outcome::Continue)
        } else {
            (m, fail(ErrorKind::UnterminatedBlockComment, m.token_start, m.token_start + 2))
        },
    }
}

/// One step of the lexer: the next model and how the step ended.
pub open spec fn step_spec(m: LexModel, inp: Seq<u8>) -> (LexModel, Outcome) {
    match m.state {
        LexState::Init => init_step(m, inp),
        LexState::StringPrefix => string_prefix_step(m, inp),
        LexState::StringInit { binary, format, raw } => string_init_step(
            m,
            inp,
            binary,
            format,
            raw,
        ),
        LexState::String { binary, raw, quote_count } => if raw {
            raw_string_step(m, inp, binary, quote_count)
        } else {
            string_step(m, inp, binary, quote_count)
        },
        LexState::FormattedString { .. } => (
            m,
            fail(
                ErrorKind::Unsupported(Unsupported::FormattedString),
                m.token_start,
                m.token_start + 1,
            ),
        ),
        LexState::Char { binary } => char_step(m, inp, binary),
        LexState::Identifier => identifier_step(m, inp),
        LexState::FieldModifier => field_modifier_step(m, inp),
        LexState::Integer => integer_step(m, inp),
        LexState::Fraction => fraction_step(m, inp),
        _ => comment_step(m, inp),
    }
}

} // verus!

verus! {

// ---------------------------------------------------------------------------
// Termination
// ---------------------------------------------------------------------------

/// The invariant that every reachable model keeps.
pub open spec fn lex_wf(m: LexModel, inp: Seq<u8>) -> bool {
    &&& inp.len() + 512 <= usize::MAX
    &&& 0 <= m.token_start <= m.cursor <= inp.len()
    &&& match m.state {
        LexState::String { quote_count, .. } => 1 <= quote_count <= 255,
        LexState::FormattedString { quote_count, .. } => 1 <= quote_count <= 255,
        _ => true,
    }
}

/// How far a state is from consuming a byte: steps that do not move the
/// cursor lower it.
pub open spec fn rank(m: LexModel, inp: Seq<u8>) -> int {
    match m.state {
        LexState::Init => 2,
        LexState::StringPrefix => 1,
        LexState::StringInit { .. } => 0,
        LexState::Identifier => if at(inp, m.cursor) >= 192 {
            1
        } else {
            3
        },
        _ => 3,
    }
}

pub open spec fn measure(m: LexModel, inp: Seq<u8>) -> int {
    4 * (inp.len() - m.cursor) + rank(m, inp)
}

proof fn lemma_byte_digits(inp: Seq<u8>, i: int)
    requires
        0 <= i <= inp.len(),
    ensures
        i <= byte_digits(inp, i).0 <= inp.len(),
    decreases inp.len() - i,
{
    if i < inp.len() {
        let x = at(inp, i);
        if is_digit(x) || x == 95 {
            lemma_byte_digits(inp, i + 1);
        }
    }
}

proof fn lemma_unicode_scan(inp: Seq<u8>, i: int, n: int)
    requires
        0 <= i <= inp.len(),
        0 <= n <= 0x10ffff,
    ensures
        unicode_scan(inp, i, n) matches UnicodeScan::Closed(j, v) ==> i + 1 <= j <= inp.len() && 0
            <= v <= 0x10ffff,
    decreases inp.len() - i,
{
    let x = at(inp, i);
    if 0 <= i < inp.len() && is_hex(x) {
        let n2 = n * 16 + hex_value(x);
        if n2 <= 0x10ffff {
            lemma_unicode_scan(inp, i + 1, n2);
        }
    }
}

pub proof fn lemma_quote_run(inp: Seq<u8>, i: int)
    requires
        0 <= i <= inp.len(),
    ensures
        quote_run(inp, i) <= inp.len() - i,
    decreases inp.len() - i,
{
    if i < inp.len() && inp[i] == 34 {
        lemma_quote_run(inp, i + 1);
    }
}

/// A step that continues keeps the invariant and lowers the measure.
pub proof fn lemma_step_progress(m: LexModel, inp: Seq<u8>)
    requires
        lex_wf(m, inp),
        step_spec(m, inp).1 is Continue,
    ensures
        lex_wf(step_spec(m, inp).0, inp),
        0 <= measure(step_spec(m, inp).0, inp) < measure(m, inp),
{
    let c = m.cursor;
    match m.state {
        LexState::Init => {
            if at(inp, c) == 35 {
                lemma_byte_digits(inp, c + 1);
            }
        },
        LexState::StringInit { .. } => {
            lemma_quote_run(inp, c);
        },
        LexState::Char { .. } => {
            if c + 3 <= inp.len() {
                lemma_unicode_scan(inp, c + 3, 0);
            }
        },
        _ => {},
    }
}

/// The lexer run from `m` to its end: the last model and how it ended.
pub open spec fn run(m: LexModel, inp: Seq<u8>) -> (LexModel, Outcome)
    decreases measure(m, inp),
    when lex_wf(m, inp)
    via run_terminates
{
    let (m2, o) = step_spec(m, inp);
    match o {
        Outcome::Continue => run(m2, inp),
        _ => (m2, o),
    }
}

#[via_fn]
proof fn run_terminates(m: LexModel, inp: Seq<u8>) {
    if step_spec(m, inp).1 is Continue {
        lemma_step_progress(m, inp);
    }
}

} // verus!
