//! Tokens and lexing errors.
use vstd::prelude::*;

verus! {

/// A half-open byte range `start..end` of the source.
#[derive(Clone, Copy, Debug, PartialEq, Eq, Structural)]
pub struct Span {
    pub start: usize,
    pub end: usize,
}

#[derive(Clone, Copy, Debug, PartialEq, Eq, Structural)]
pub enum Delim {
    Bracket,
    Brace,
    Parenthesis,
    /// `\(`, closed by `)`.
    Lambda,
}

/// The reserved words that the lexer turns into keyword tokens.
#[derive(Clone, Copy, Debug, PartialEq, Eq, Structural)]
pub enum TokenKeyword {
    As,
    Assert,
    Else,
    Enum,
    Fn,
    If,
    Let,
    Match,
    Mod,
    Pub,
    Struct,
    Type,
    Use,
}

/// Punctuation. A one-byte punctuation keeps its byte.
#[derive(Clone, Copy, Debug, PartialEq, Eq, Structural)]
pub enum Punct {
    Single(u8),
    /// `!=`
    Neq,
    /// `&&`
    AndAnd,
    /// `++`
    Concat,
    /// `->`
    ReturnType,
    /// `..`
    DotDot,
    /// `..=`
    DotDotEq,
    /// `<<`
    Shl,
    /// `<=`
    Leq,
    /// `==`
    Equal,
    /// `=>`
    Arrow,
    /// `>=`
    Geq,
    /// `>>`
    Shr,
    /// `||`
    OrOr,
}

/// A number literal: the decimal digits before the dot and, for a number
/// with a dot, those after it. Both are indices into the string table.
#[derive(Clone, Copy, Debug, PartialEq, Eq, Structural)]
pub struct NumberLiteral {
    pub digits: usize,
    pub fraction: Option<usize>,
}

/// What a token is. Strings, identifiers, field modifiers and doc comments
/// hold an index into the session's string table.
#[derive(Clone, Copy, Debug, PartialEq, Eq, Structural)]
pub enum TokenKind {
    Keyword(TokenKeyword),
    Identifier(usize),
    Number(NumberLiteral),
    Byte(u8),
    /// A char literal's code point, as the escape or the bytes wrote it.
    Char(u32),
    String { binary: bool, raw: bool, s: usize },
    FieldModifier(usize),
    DocComment(usize),
    Punct(Punct),
    /// An opening delimiter (`delim` is `Some`) or a closing one (`None`);
    /// `id` is the span of the opening delimiter of the pair.
    GroupDelim { delim: Option<Delim>, id: Span },
}

#[derive(Clone, Copy, Debug, PartialEq, Eq, Structural)]
pub struct Token {
    pub kind: TokenKind,
    pub span: Span,
}

/// A construct that the lexer recognises and does not lex yet.
#[derive(Clone, Copy, Debug, PartialEq, Eq, Structural)]
pub enum Unsupported {
    NonDecimalInteger,
    FormattedString,
}

#[derive(Clone, Copy, Debug, PartialEq, Eq, Structural)]
pub enum ErrorKind {
    Unsupported(Unsupported),
    InvalidNumberLiteral,
    InvalidByteLiteral,
    /// A closing delimiter that does not close the innermost open group.
    UnmatchedGroup { expected: u8, got: u8 },
    /// A closing delimiter with no open group.
    UnexpectedCharacter(u8),
    /// The input ended with a group open; it holds the expected closing byte.
    UnclosedDelimiter(u8),
    InvalidStringLiteralPrefix,
    InvalidCharLiteralPrefix,
    TooManyQuotes,
    WrongNumberOfQuotesInRawStringLiteral,
    EmptyCharLiteral,
    UnterminatedStringLiteral,
    InvalidEscape,
    InvalidUtf8,
    InvalidUnicodeCharacter,
    InvalidUnicodeEscape,
    InvalidCharLiteral,
    UnterminatedCharLiteral,
    /// The first character of an identifier that is not allowed in one
    /// (U+FFFD for a malformed UTF-8 sequence).
    InvalidCharacterInIdentifier(u32),
    /// The input ended where a declaration was expected.
    UnexpectedEof,
    UnterminatedBlockComment,
}

#[derive(Clone, Copy, Debug, PartialEq, Eq, Structural)]
pub enum ErrorSpan {
    Range(Span),
    Eof,
}

#[derive(Clone, Copy, Debug, PartialEq, Eq, Structural)]
pub enum Note {
    /// This byte is not a decimal digit.
    InvalidDigit(u8),
    /// A byte char literal must be ASCII; the number is what was written.
    PerhapsByte(u32),
    /// A byte must lie in `#0..=#255`.
    ByteRange,
}

#[derive(Clone, Copy, Debug, PartialEq, Eq, Structural)]
pub struct Error {
    pub kind: ErrorKind,
    pub span: ErrorSpan,
    pub note: Option<Note>,
}

} // verus!
