//! A self-check of a session: does the text under each token's span look
//! like that token?
use crate::lex::machine::{is_digit, keyword_spelling};
use crate::lex::scan::{bytes_equal, spelling};
use crate::lex::session::{table_view, Session};
use crate::lex::token::{Delim, Punct, Span, Token, TokenKind};
use crate::lex::tree::TokenTree;
use vstd::prelude::*;

verus! {

/// How a punctuation is written.
pub open spec fn punct_text(p: Punct) -> Seq<u8> {
    match p {
        Punct::Single(b) => seq![b],
        Punct::Neq => seq![33u8, 61],
        Punct::AndAnd => seq![38u8, 38],
        Punct::Concat => seq![43u8, 43],
        Punct::ReturnType => seq![45u8, 62],
        Punct::DotDot => seq![46u8, 46],
        Punct::DotDotEq => seq![46u8, 46, 61],
        Punct::Shl => seq![60u8, 60],
        Punct::Leq => seq![60u8, 61],
        Punct::Equal => seq![61u8, 61],
        Punct::Arrow => seq![61u8, 62],
        Punct::Geq => seq![62u8, 61],
        Punct::Shr => seq![62u8, 62],
        Punct::OrOr => seq![124u8, 124],
    }
}

fn punct_bytes(p: Punct) -> (r: Vec<u8>)
    ensures
        r@ == punct_text(p),
{
    match p {
        Punct::Single(b) => {
            let mut v = Vec::new();
            v.push(b);
            v
        },
        Punct::Neq => vec![33u8, 61],
        Punct::AndAnd => vec![38u8, 38],
        Punct::Concat => vec![43u8, 43],
        Punct::ReturnType => vec![45u8, 62],
        Punct::DotDot => vec![46u8, 46],
        Punct::DotDotEq => vec![46u8, 46, 61],
        Punct::Shl => vec![60u8, 60],
        Punct::Leq => vec![60u8, 61],
        Punct::Equal => vec![61u8, 61],
        Punct::Arrow => vec![61u8, 62],
        Punct::Geq => vec![62u8, 61],
        Punct::Shr => vec![62u8, 62],
        Punct::OrOr => vec![124u8, 124],
    }
}

/// A byte that a number literal's text may hold: digits, `.`, and the signs
/// and letters of other bases and exponents (`-_xXoObBe`).
pub open spec fn number_byte(c: u8) -> bool {
    (48 <= c <= 57) || c == 46 || c == 45 || c == 95 || c == 120 || c == 88 || c == 111 || c
        == 79 || c == 98 || c == 66 || c == 101
}

/// The text of a number: a digit first, then number bytes with at most one dot.
pub open spec fn number_text(code: Seq<u8>) -> bool {
    &&& code.len() > 0
    &&& 48 <= code[0] <= 57
    &&& forall|i: int| 0 <= i < code.len() ==> number_byte(#[trigger] code[i])
    &&& forall|i: int, j: int|
        0 <= i < j < code.len() && #[trigger] code[i] == 46 ==> #[trigger] code[j] != 46
}

/// The opening marker of a group and its closing one.
pub open spec fn open_marker(d: Delim) -> Seq<u8> {
    match d {
        Delim::Bracket => seq![91u8],
        Delim::Brace => seq![123u8],
        Delim::Parenthesis => seq![40u8],
        Delim::Lambda => seq![92u8, 40],
    }
}

pub open spec fn close_marker(d: Delim) -> u8 {
    match d {
        Delim::Bracket => 93u8,
        Delim::Brace => 125u8,
        _ => 41u8,
    }
}

/// The text of `inp` under `s`.
pub open spec fn span_text(inp: Seq<u8>, s: Span) -> Seq<u8> {
    inp.subrange(s.start as int, s.end as int)
}

/// What the text under a token must look like.
pub open spec fn token_text_ok(t: Token, inp: Seq<u8>, strings: Seq<Seq<u8>>) -> bool {
    let s = t.span;
    let code = span_text(inp, s);
    &&& s.start <= s.end <= inp.len()
    &&& match t.kind {
        TokenKind::Keyword(k) => code == keyword_spelling(k),
        TokenKind::Identifier(id) => id < strings.len() && (code == strings[id as int] || code
            == seq![114u8, 35] + strings[id as int]),
        TokenKind::Number(_) => number_text(code),
        TokenKind::String { .. } => code.len() > 0 && (code[0] == 114 || code[0] == 102
            || code[0] == 98 || code[0] == 34) && code.last() == 34,
        TokenKind::Char(_) => code.len() > 0 && code[0] == 39 && code.last() == 39,
        TokenKind::Byte(_) => code.len() > 1 && ((code[0] == 35 && 48 <= code[1] <= 57) || (
        code[0] == 98 && code[1] == 39)),
        TokenKind::DocComment(_) => code.len() >= 3 && code.take(3) == seq![47u8, 47, 47] && (
        s.end == inp.len() || inp[s.end as int] == 10),
        TokenKind::FieldModifier(id) => id < strings.len() && code.len() > 0 && code[0] == 96
            && code.skip(1) == strings[id as int],
        TokenKind::Punct(p) => code == punct_text(p),
        TokenKind::GroupDelim { .. } => false,
    }
}

/// What the text under every token of a tree must look like; a group's
/// text starts with its opening marker and ends with its closing one.
pub open spec fn tree_text_ok(t: TokenTree, inp: Seq<u8>, strings: Seq<Seq<u8>>) -> bool
    decreases t, 0nat,
{
    match t {
        TokenTree::Leaf(tok) => token_text_ok(tok, inp, strings),
        TokenTree::Group { delim, span, tokens } => {
            proof {
                assert(decreases_to!(t => tokens));
                assert(decreases_to!(tokens => tokens@));
            }
            let code = span_text(inp, span);
            &&& span.start <= span.end <= inp.len()
            &&& code.len() >= open_marker(delim).len()
            &&& code.take(open_marker(delim).len() as int) == open_marker(delim)
            &&& code.len() > 0
            &&& code.last() == close_marker(delim)
            &&& trees_text_ok(tokens@, inp, strings)
        },
    }
}

pub open spec fn trees_text_ok(ts: Seq<TokenTree>, inp: Seq<u8>, strings: Seq<Seq<u8>>) -> bool
    decreases ts, 1nat,
{
    if ts.len() == 0 {
        true
    } else {
        trees_text_ok(ts.drop_last(), inp, strings) && tree_text_ok(ts.last(), inp, strings)
    }
}

fn number_text_exec(code: &[u8]) -> (r: bool)
    ensures
        r == number_text(code@),
{
    if code.len() == 0 || !(48 <= code[0] && code[0] <= 57) {
        return false;
    }
    let mut has_dot = false;
    let mut i: usize = 0;
    while i < code.len()
        invariant
            i <= code@.len(),
            code@.len() > 0,
            forall|k: int| 0 <= k < i ==> number_byte(#[trigger] code@[k]),
            forall|k: int, j: int|
                0 <= k < j < i && #[trigger] code@[k] == 46 ==> #[trigger] code@[j] != 46,
            has_dot == (exists|k: int| 0 <= k < i && code@[k] == 46),
        decreases code@.len() - i,
    {
        let c = code[i];
        let ok = (48 <= c && c <= 57) || c == 46 || c == 45 || c == 95 || c == 120 || c == 88 || c
            == 111 || c == 79 || c == 98 || c == 66 || c == 101;
        if !ok {
            return false;
        }
        if c == 46 {
            if has_dot {
                return false;
            }
            has_dot = true;
        }
        i = i + 1;
    }
    true
}

/// The text under the span, or `None` where the span is not inside `inp`.
fn text_of(inp: &[u8], s: Span) -> (r: Option<&[u8]>)
    ensures
        match r {
            Some(code) => s.start <= s.end <= inp@.len() && code@ == span_text(inp@, s),
            None => !(s.start <= s.end <= inp@.len()),
        },
{
    if s.start <= s.end && s.end <= inp.len() {
        Some(vstd::slice::slice_subrange(inp, s.start, s.end))
    } else {
        None
    }
}

/// Whether the text under `t` looks like `t`.
pub fn token_text_valid(t: &Token, inp: &[u8], strings: &Vec<Vec<u8>>) -> (r: bool)
    ensures
        r == token_text_ok(*t, inp@, table_view(strings@)),
{
    let code = match text_of(inp, t.span) {
        Some(code) => code,
        None => {
            return false;
        },
    };
    let n = code.len();
    match t.kind {
        TokenKind::Keyword(k) => {
            let s = spelling(k);
            bytes_equal(code, s.as_slice())
        },
        TokenKind::Identifier(id) => {
            if id >= strings.len() {
                return false;
            }
            let s = strings[id].as_slice();
            if bytes_equal(code, s) {
                return true;
            }
            if n < 2 || code[0] != 114 || code[1] != 35 {
                proof {
                    if code@ == seq![114u8, 35] + strings@[id as int]@ {
                        assert(code@[0] == 114 && code@[1] == 35);
                    }
                }
                return false;
            }
            let rest = vstd::slice::slice_subrange(code, 2, n);
            let r = bytes_equal(rest, s);
            proof {
                if r {
                    assert(code@ =~= seq![114u8, 35] + strings@[id as int]@);
                } else if code@ == seq![114u8, 35] + strings@[id as int]@ {
                    assert(rest@ =~= strings@[id as int]@);
                }
            }
            r
        },
        TokenKind::Number(_) => number_text_exec(code),
        TokenKind::String { .. } => n > 0 && (code[0] == 114 || code[0] == 102 || code[0] == 98
            || code[0] == 34) && code[n - 1] == 34,
        TokenKind::Char(_) => n > 0 && code[0] == 39 && code[n - 1] == 39,
        TokenKind::Byte(_) => n > 1 && ((code[0] == 35 && 48 <= code[1] && code[1] <= 57) || (code[0]
            == 98 && code[1] == 39)),
        TokenKind::DocComment(_) => {
            if n < 3 || code[0] != 47 || code[1] != 47 || code[2] != 47 {
                proof {
                    if n >= 3 && code@.take(3) == seq![47u8, 47, 47] {
                        assert(code@.take(3)[0] == code@[0]);
                        assert(code@.take(3)[1] == code@[1]);
                        assert(code@.take(3)[2] == code@[2]);
                    }
                }
                return false;
            }
            proof {
                assert(code@.take(3) =~= seq![47u8, 47, 47]);
            }
            t.span.end == inp.len() || inp[t.span.end] == 10
        },
        TokenKind::FieldModifier(id) => {
            if id >= strings.len() || n == 0 || code[0] != 96 {
                return false;
            }
            let rest = vstd::slice::slice_subrange(code, 1, n);
            proof {
                assert(rest@ =~= code@.skip(1));
            }
            bytes_equal(rest, strings[id].as_slice())
        },
        TokenKind::Punct(p) => {
            let s = punct_bytes(p);
            bytes_equal(code, s.as_slice())
        },
        TokenKind::GroupDelim { .. } => false,
    }
}

/// Whether the text under every token of the trees looks like the token.
pub fn trees_text_valid(ts: &Vec<TokenTree>, inp: &[u8], strings: &Vec<Vec<u8>>) -> (r: bool)
    ensures
        r == trees_text_ok(ts@, inp@, table_view(strings@)),
    decreases ts, 1nat,
{
    let mut i: usize = 0;
    proof {
        assert(ts@.take(0) =~= Seq::<TokenTree>::empty());
    }
    while i < ts.len()
        invariant
            i <= ts@.len(),
            trees_text_ok(ts@.take(i as int), inp@, table_view(strings@)),
        decreases ts@.len() - i,
    {
        proof {
            assert(decreases_to!(ts => ts@));
            assert(decreases_to!(ts@ => ts@[i as int]));
        }
        let ok = tree_text_valid(&ts[i], inp, strings);
        proof {
            assert(ts@.take(i + 1).drop_last() =~= ts@.take(i as int));
            assert(ts@.take(i + 1).last() == ts@[i as int]);
        }
        if !ok {
            proof {
                lemma_trees_prefix(ts@, i + 1, inp@, table_view(strings@));
            }
            return false;
        }
        i = i + 1;
    }
    proof {
        assert(ts@.take(i as int) =~= ts@);
    }
    true
}

/// Whether the text under every token of the tree looks like the token.
pub fn tree_text_valid(t: &TokenTree, inp: &[u8], strings: &Vec<Vec<u8>>) -> (r: bool)
    ensures
        r == tree_text_ok(*t, inp@, table_view(strings@)),
    decreases t, 0nat,
{
    match t {
        TokenTree::Leaf(tok) => token_text_valid(tok, inp, strings),
        TokenTree::Group { delim, span, tokens } => {
            let code = match text_of(inp, *span) {
                Some(code) => code,
                None => {
                    return false;
                },
            };
            let n = code.len();
            let (open, close): (&[u8], u8) = match delim {
                Delim::Bracket => (&[91u8], 93u8),
                Delim::Brace => (&[123u8], 125u8),
                Delim::Parenthesis => (&[40u8], 41u8),
                Delim::Lambda => (&[92u8, 40u8], 41u8),
            };
            proof {
                assert(open@ == open_marker(*delim));
            }
            let k = open.len();
            if n < k || n == 0 {
                return false;
            }
            let head = vstd::slice::slice_subrange(code, 0, k);
            proof {
                assert(head@ =~= code@.take(k as int));
            }
            if !bytes_equal(head, open) || code[n - 1] != close {
                return false;
            }
            proof {
                assert(decreases_to!(t => tokens));
            }
            trees_text_valid(tokens, inp, strings)
        },
    }
}

/// A sequence of trees whose prefix fails fails.
proof fn lemma_trees_prefix(ts: Seq<TokenTree>, i: int, inp: Seq<u8>, strings: Seq<Seq<u8>>)
    requires
        0 <= i <= ts.len(),
        !trees_text_ok(ts.take(i), inp, strings),
    ensures
        !trees_text_ok(ts, inp, strings),
    decreases ts.len() - i,
{
    if i < ts.len() {
        assert(ts.take(i + 1).drop_last() =~= ts.take(i));
        lemma_trees_prefix(ts, i + 1, inp, strings);
    } else {
        assert(ts.take(i) =~= ts);
    }
}

impl Session {
    /// Checks that the text under each token looks like the token: the
    /// grouped tokens after a successful run, the tokens as read otherwise (a
    /// delimiter token fails the check).
    pub fn validate_spans(&self) -> (r: bool)
        ensures
            r == if self.errors@.len() == 0 {
                trees_text_ok(self.token_trees@, self.input_bytes@, table_view(self.strings@))
            } else {
                forall|i: int|
                    0 <= i < self.tokens@.len() ==> token_text_ok(
                        #[trigger] self.tokens@[i],
                        self.input_bytes@,
                        table_view(self.strings@),
                    )
            },
    {
        if self.errors.len() == 0 {
            return trees_text_valid(&self.token_trees, self.input_bytes.as_slice(), &self.strings);
        }
        let mut i: usize = 0;
        while i < self.tokens.len()
            invariant
                i <= self.tokens@.len(),
                self.errors@.len() > 0,
                forall|k: int|
                    0 <= k < i ==> token_text_ok(
                        #[trigger] self.tokens@[k],
                        self.input_bytes@,
                        table_view(self.strings@),
                    ),
            decreases self.tokens@.len() - i,
        {
            if !token_text_valid(&self.tokens[i], self.input_bytes.as_slice(), &self.strings) {
                return false;
            }
            i = i + 1;
        }
        true
    }
}

} // verus!
