//! Small executable pieces of the lexer: keywords, identifier characters,
//! hex digits and escapes.
use crate::lex::machine::{
    allowed_in_identifier, byte_or_zero, decode2, decode3, decode4, decode_at, escaped,
    first_bad_char, hex_value, is_hex, is_simple_escape, keyword_of, keyword_spelling,
    punct_pair, seq_len_of,
};
use crate::lex::token::{Punct, TokenKeyword};
use vstd::prelude::*;

verus! {

/// How a keyword is spelled.
pub fn spelling(k: TokenKeyword) -> (r: Vec<u8>)
    ensures
        r@ == keyword_spelling(k),
{
    match k {
        TokenKeyword::As => vec![97u8, 115],
        TokenKeyword::Assert => vec![97u8, 115, 115, 101, 114, 116],
        TokenKeyword::Else => vec![101u8, 108, 115, 101],
        TokenKeyword::Enum => vec![101u8, 110, 117, 109],
        TokenKeyword::Fn => vec![102u8, 110],
        TokenKeyword::If => vec![105u8, 102],
        TokenKeyword::Let => vec![108u8, 101, 116],
        TokenKeyword::Match => vec![109u8, 97, 116, 99, 104],
        TokenKeyword::Mod => vec![109u8, 111, 100],
        TokenKeyword::Pub => vec![112u8, 117, 98],
        TokenKeyword::Struct => vec![115u8, 116, 114, 117, 99, 116],
        TokenKeyword::Type => vec![116u8, 121, 112, 101],
        TokenKeyword::Use => vec![117u8, 115, 101],
    }
}

pub fn bytes_equal(a: &[u8], b: &[u8]) -> (r: bool)
    ensures
        r == (a@ == b@),
{
    if a.len() != b.len() {
        return false;
    }
    let mut i: usize = 0;
    while i < a.len()
        invariant
            a@.len() == b@.len(),
            i <= a@.len(),
            forall|k: int| 0 <= k < i ==> a@[k] == b@[k],
        decreases a@.len() - i,
    {
        if a[i] != b[i] {
            return false;
        }
        i = i + 1;
    }
    assert(a@ =~= b@);
    true
}

fn spelled(b: &[u8], k: TokenKeyword) -> (r: bool)
    ensures
        r == (b@ == keyword_spelling(k)),
{
    let s = spelling(k);
    bytes_equal(b, s.as_slice())
}

/// The keyword that `b` spells, if any.
pub fn keyword_lookup(b: &[u8]) -> (r: Option<TokenKeyword>)
    ensures
        r == keyword_of(b@),
{
    if spelled(b, TokenKeyword::As) {
        Some(TokenKeyword::As)
    } else if spelled(b, TokenKeyword::Assert) {
        Some(TokenKeyword::Assert)
    } else if spelled(b, TokenKeyword::Else) {
        Some(TokenKeyword::Else)
    } else if spelled(b, TokenKeyword::Enum) {
        Some(TokenKeyword::Enum)
    } else if spelled(b, TokenKeyword::Fn) {
        Some(TokenKeyword::Fn)
    } else if spelled(b, TokenKeyword::If) {
        Some(TokenKeyword::If)
    } else if spelled(b, TokenKeyword::Let) {
        Some(TokenKeyword::Let)
    } else if spelled(b, TokenKeyword::Match) {
        Some(TokenKeyword::Match)
    } else if spelled(b, TokenKeyword::Mod) {
        Some(TokenKeyword::Mod)
    } else if spelled(b, TokenKeyword::Pub) {
        Some(TokenKeyword::Pub)
    } else if spelled(b, TokenKeyword::Struct) {
        Some(TokenKeyword::Struct)
    } else if spelled(b, TokenKeyword::Type) {
        Some(TokenKeyword::Type)
    } else if spelled(b, TokenKeyword::Use) {
        Some(TokenKeyword::Use)
    } else {
        None
    }
}

pub fn allowed_char(n: i64) -> (r: bool)
    ensures
        r == allowed_in_identifier(n as int),
{
    (48 <= n && n <= 57) || (97 <= n && n <= 122) || (65 <= n && n <= 90) || n == 95 || (0x3400
        <= n && n <= 0x9fff) || (0x3041 <= n && n <= 0x3096) || (0x30a1 <= n && n <= 0x30fa) || (
    0xac00 <= n && n <= 0xd7a3) || (0x2600 <= n && n <= 0x2764) || (0x1f300 <= n && n <= 0x1f64f)
        || (0x1f680 <= n && n <= 0x1f6fc) || (0x1f90c <= n && n <= 0x1faf8)
}

/// The byte `k` places after `i`, or 0 past the end.
fn byte_after(s: &[u8], i: usize, k: usize) -> (r: i64)
    requires
        i < s@.len(),
    ensures
        r == byte_or_zero(s@, i + k),
{
    if k < s.len() - i {
        s[i + k] as i64
    } else {
        0
    }
}

/// The code point of the sequence at `i`, read by its shape, and whether it
/// is well-formed UTF-8.
fn decode_at_exec(s: &[u8], i: usize) -> (r: (i64, bool))
    requires
        i < s@.len(),
    ensures
        r.0 == decode_at(s@, i as int).0,
        r.1 == decode_at(s@, i as int).1,
{
    let x = s[i] as i64;
    let y = byte_after(s, i, 1);
    let z = byte_after(s, i, 2);
    let w = byte_after(s, i, 3);
    if x < 128 {
        (x, true)
    } else if x < 224 {
        let n = (x - 192) * 64 + (y - 128);
        (n, n >= 0x80)
    } else if x < 240 {
        let n = (x - 224) * 4096 + (y - 128) * 64 + (z - 128);
        (n, n >= 0x800 && !(0xd800 <= n && n <= 0xdfff))
    } else {
        let n = (x - 240) * 262144 + (y - 128) * 4096 + (z - 128) * 64 + (w - 128);
        (n, 0x10000 <= n && n <= 0x10ffff)
    }
}

/// The first character of an identifier's bytes that an identifier may not
/// hold, U+FFFD for a malformed sequence.
pub fn first_bad_identifier_char(s: &[u8]) -> (r: Option<u32>)
    ensures
        r == first_bad_char(s@, 0),
{
    let mut i: usize = 0;
    while i < s.len()
        invariant
            i <= s@.len(),
            first_bad_char(s@, 0) == first_bad_char(s@, i as int),
        decreases s@.len() - i,
    {
        let (n, ok) = decode_at_exec(s, i);
        if !ok {
            return Some(0xfffd);
        }
        if !allowed_char(n) {
            return Some(n as u32);
        }
        let x = s[i];
        let l: usize = if x < 128 {
            1
        } else if x < 224 {
            2
        } else if x < 240 {
            3
        } else {
            4
        };
        assert(l == seq_len_of(s@[i as int] as int));
        if l < s.len() - i {
            i = i + l;
        } else {
            return None;
        }
    }
    None
}

pub fn hex_digit(c: i32) -> (r: u32)
    requires
        is_hex(c),
    ensures
        r == hex_value(c),
        r < 16,
{
    if 48 <= c && c <= 57 {
        (c - 48) as u32
    } else if 97 <= c && c <= 102 {
        (c - 87) as u32
    } else {
        (c - 55) as u32
    }
}

/// The byte that the escape `\c` stands for.
pub fn escape_byte(c: i32) -> (r: u8)
    requires
        is_simple_escape(c),
    ensures
        r == escaped(c),
        r < 128,
{
    if c == 110 {
        10
    } else if c == 114 {
        13
    } else if c == 116 {
        9
    } else if c == 48 {
        0
    } else {
        c as u8
    }
}

/// The two-byte punctuation that `x` and `y` spell, if any.
pub fn punct_of_pair(x: i32, y: i32) -> (r: Option<Punct>)
    ensures
        r == punct_pair(x, y),
{
    if x == 33 && y == 61 {
        Some(Punct::Neq)
    } else if x == 38 && y == 38 {
        Some(Punct::AndAnd)
    } else if x == 43 && y == 43 {
        Some(Punct::Concat)
    } else if x == 45 && y == 62 {
        Some(Punct::ReturnType)
    } else if x == 46 && y == 46 {
        Some(Punct::DotDot)
    } else if x == 60 && y == 60 {
        Some(Punct::Shl)
    } else if x == 60 && y == 61 {
        Some(Punct::Leq)
    } else if x == 61 && y == 61 {
        Some(Punct::Equal)
    } else if x == 61 && y == 62 {
        Some(Punct::Arrow)
    } else if x == 62 && y == 61 {
        Some(Punct::Geq)
    } else if x == 62 && y == 62 {
        Some(Punct::Shr)
    } else if x == 124 && y == 124 {
        Some(Punct::OrOr)
    } else {
        None
    }
}

} // verus!
