//! Tokens grouped by their delimiters.
use crate::lex::laws::{balanced, delim_width, open_groups};
use crate::lex::token::{Delim, Span, Token, TokenKind};
use vstd::prelude::*;

verus! {

/// A token, or a group: the tokens between a pair of delimiters. A group's
/// span runs from its opening delimiter to its closing one.
pub enum TokenTree {
    Leaf(Token),
    Group { delim: Delim, span: Span, tokens: Vec<TokenTree> },
}

/// The span of the opening delimiter of a group.
pub open spec fn open_span(d: Delim, span: Span) -> Span {
    Span { start: span.start, end: (span.start + delim_width(d)) as usize }
}

/// The opening delimiter token of a group.
pub open spec fn open_token(d: Delim, span: Span) -> Token {
    Token {
        kind: TokenKind::GroupDelim { delim: Some(d), id: open_span(d, span) },
        span: open_span(d, span),
    }
}

/// The closing delimiter token of a group: one byte at its end.
pub open spec fn close_token(d: Delim, span: Span) -> Token {
    Token {
        kind: TokenKind::GroupDelim { delim: None, id: open_span(d, span) },
        span: Span { start: (span.end - 1) as usize, end: span.end },
    }
}

/// The tokens of a tree, delimiters included, in order.
pub open spec fn flatten_tree(t: TokenTree) -> Seq<Token>
    decreases t, 0nat,
{
    match t {
        TokenTree::Leaf(tok) => seq![tok],
        TokenTree::Group { delim, span, tokens } => {
            proof {
                assert(decreases_to!(t => tokens));
                assert(decreases_to!(tokens => tokens@));
            }
            seq![open_token(delim, span)] + flatten_trees(tokens@) + seq![close_token(delim, span)]
        },
    }
}

/// The tokens of a sequence of trees, in order.
pub open spec fn flatten_trees(ts: Seq<TokenTree>) -> Seq<Token>
    decreases ts, 1nat,
{
    if ts.len() == 0 {
        seq![]
    } else {
        flatten_trees(ts.drop_last()) + flatten_tree(ts.last())
    }
}

/// No leaf of the tree is a delimiter token.
pub open spec fn plain_tree(t: TokenTree) -> bool
    decreases t, 0nat,
{
    match t {
        TokenTree::Leaf(tok) => !(tok.kind is GroupDelim),
        TokenTree::Group { tokens, .. } => {
            proof {
                assert(decreases_to!(t => tokens));
                assert(decreases_to!(tokens => tokens@));
            }
            plain_trees(tokens@)
        },
    }
}

pub open spec fn plain_trees(ts: Seq<TokenTree>) -> bool
    decreases ts, 1nat,
{
    if ts.len() == 0 {
        true
    } else {
        plain_trees(ts.drop_last()) && plain_tree(ts.last())
    }
}

/// An open group while grouping: its delimiter, the span of its opening
/// delimiter, and the trees read before it at its level.
struct Frame {
    delim: Delim,
    open: Span,
    before: Vec<TokenTree>,
}

/// The tokens that the open groups stand for: for each, the trees before
/// it and its opening delimiter.
spec fn frames_flat(fs: Seq<Frame>) -> Seq<Token>
    decreases fs.len(),
{
    if fs.len() == 0 {
        seq![]
    } else {
        frames_flat(fs.drop_last()) + flatten_trees(fs.last().before@) + seq![
            open_token(fs.last().delim, fs.last().open),
        ]
    }
}

spec fn frames_plain(fs: Seq<Frame>) -> bool {
    forall|k: int| 0 <= k < fs.len() ==> plain_trees(#[trigger] fs[k].before@)
}

spec fn frames_match(fs: Seq<Frame>, st: Seq<(Delim, Span)>) -> bool {
    &&& fs.len() == st.len()
    &&& forall|k: int|
        0 <= k < fs.len() ==> (#[trigger] fs[k]).delim == st[k].0 && fs[k].open == st[k].1
            && fs[k].open.end == fs[k].open.start + delim_width(fs[k].delim)
}

proof fn lemma_flatten_push(ts: Seq<TokenTree>, t: TokenTree)
    ensures
        flatten_trees(ts.push(t)) == flatten_trees(ts) + flatten_tree(t),
        plain_trees(ts.push(t)) == (plain_trees(ts) && plain_tree(t)),
{
    assert(ts.push(t).drop_last() =~= ts);
}

proof fn lemma_frames_push(fs: Seq<Frame>, f: Frame)
    ensures
        frames_flat(fs.push(f)) == frames_flat(fs) + flatten_trees(f.before@) + seq![
            open_token(f.delim, f.open),
        ],
{
    assert(fs.push(f).drop_last() =~= fs);
}

/// The delimiters of a prefix of tokens whose delimiters balance are well
/// placed.
proof fn lemma_open_groups_prefix(ts: Seq<Token>, i: int)
    requires
        open_groups(ts) is Some,
        0 <= i <= ts.len(),
    ensures
        open_groups(ts.take(i)) is Some,
    decreases ts.len(),
{
    if i < ts.len() {
        assert(ts.drop_last().take(i) =~= ts.take(i));
        lemma_open_groups_prefix(ts.drop_last(), i);
    } else {
        assert(ts.take(i) =~= ts);
    }
}

/// Groups the tokens by their delimiters. The delimiters must balance, as
/// they do after lexing without an error.
pub fn group_tokens(tokens: &[Token]) -> (r: Vec<TokenTree>)
    requires
        balanced(tokens@),
    ensures
        flatten_trees(r@) == tokens@,
        plain_trees(r@),
{
    let mut frames: Vec<Frame> = Vec::new();
    let mut current: Vec<TokenTree> = Vec::new();
    let mut i: usize = 0;
    proof {
        assert(tokens@.take(0) =~= Seq::<Token>::empty());
    }
    while i < tokens.len()
        invariant
            balanced(tokens@),
            i <= tokens@.len(),
            frames_flat(frames@) + flatten_trees(current@) == tokens@.take(i as int),
            plain_trees(current@),
            frames_plain(frames@),
            open_groups(tokens@.take(i as int)) is Some,
            frames_match(frames@, open_groups(tokens@.take(i as int))->0),
        decreases tokens@.len() - i,
    {
        let ghost prefix = tokens@.take(i as int);
        let ghost st = open_groups(prefix)->0;
        let t = tokens[i];
        proof {
            lemma_open_groups_prefix(tokens@, i + 1);
            assert(tokens@.take(i + 1).drop_last() =~= prefix);
            assert(tokens@.take(i + 1) =~= prefix.push(t));
        }
        let ghost fs0 = frames@;
        let ghost cur0 = current@;
        match t.kind {
            TokenKind::GroupDelim { delim: Some(d), id } => {
                let before = current;
                current = Vec::new();
                let f = Frame { delim: d, open: id, before };
                frames.push(f);
                proof {
                    lemma_frames_push(fs0, f);
                    assert(open_token(d, id) == t);
                    assert(frames_flat(frames@) + flatten_trees(current@) =~= prefix.push(t));
                    let st2 = open_groups(prefix.push(t))->0;
                    assert(st2 == st.push((d, id)));
                    assert forall|k: int| 0 <= k < frames@.len() implies plain_trees(
                        #[trigger] frames@[k].before@,
                    ) by {
                        if k < fs0.len() {
                            assert(frames@[k] == fs0[k]);
                        }
                    }
                    assert forall|k: int| 0 <= k < frames@.len() implies (
                    #[trigger] frames@[k]).delim == st2[k].0 && frames@[k].open == st2[k].1
                        && frames@[k].open.end == frames@[k].open.start + delim_width(
                        frames@[k].delim,
                    ) by {
                        if k < fs0.len() {
                            assert(frames@[k] == fs0[k]);
                        }
                    }
                }
            },
            TokenKind::GroupDelim { delim: None, id: _ } => {
                proof {
                    assert(st.len() > 0);
                }
                let f = frames.pop().unwrap();
                let inner = current;
                let mut outer = f.before;
                let g = TokenTree::Group {
                    delim: f.delim,
                    span: Span { start: f.open.start, end: t.span.end },
                    tokens: inner,
                };
                proof {
                    assert(f == fs0.last());
                    assert(fs0.drop_last().push(f) =~= fs0);
                    lemma_frames_push(fs0.drop_last(), f);
                    assert(open_token(f.delim, Span { start: f.open.start, end: t.span.end })
                        == open_token(f.delim, f.open));
                    assert(close_token(f.delim, Span { start: f.open.start, end: t.span.end })
                        == t);
                    lemma_flatten_push(f.before@, g);
                    assert(plain_trees(f.before@)) by {
                        assert(fs0[fs0.len() - 1] == f);
                    }
                }
                outer.push(g);
                current = outer;
                proof {
                    assert(frames_flat(frames@) + flatten_trees(current@) =~= prefix.push(t));
                    let st2 = open_groups(prefix.push(t))->0;
                    assert(st2 == st.drop_last());
                    assert forall|k: int| 0 <= k < frames@.len() implies plain_trees(
                        #[trigger] frames@[k].before@,
                    ) by {
                        assert(frames@[k] == fs0[k]);
                    }
                    assert forall|k: int| 0 <= k < frames@.len() implies (
                    #[trigger] frames@[k]).delim == st2[k].0 && frames@[k].open == st2[k].1
                        && frames@[k].open.end == frames@[k].open.start + delim_width(
                        frames@[k].delim,
                    ) by {
                        assert(frames@[k] == fs0[k]);
                    }
                }
            },
            _ => {
                current.push(TokenTree::Leaf(t));
                proof {
                    lemma_flatten_push(cur0, TokenTree::Leaf(t));
                    assert(frames_flat(frames@) + flatten_trees(current@) =~= prefix.push(t));
                }
            },
        }
        i = i + 1;
    }
    proof {
        assert(tokens@.take(i as int) =~= tokens@);
    }
    current
}

} // verus!
