//! What holds of every run of the lexer.
use crate::lex::machine::{
    at, is_punct_first, is_punct_second, is_single_punct, lemma_step_progress, lex_wf, measure,
    punct_pair, run, step_spec, LexModel, LexState, Outcome,
};
use crate::lex::validate::{open_marker, punct_text, token_text_ok};
use crate::lex::token::{Delim, Punct, Span, Token, TokenKind};
use vstd::prelude::*;

verus! {

/// How many bytes an opening delimiter takes: `\(` two, the others one.
pub open spec fn delim_width(d: Delim) -> int {
    if d == Delim::Lambda {
        2
    } else {
        1
    }
}

/// The groups left open after the tokens `ts`, innermost last, or `None` if a
/// delimiter token is misplaced: a closing one that does not close the
/// innermost open group, or one of the wrong width.
pub open spec fn open_groups(ts: Seq<Token>) -> Option<Seq<(Delim, Span)>>
    decreases ts.len(),
{
    if ts.len() == 0 {
        Some(seq![])
    } else {
        match open_groups(ts.drop_last()) {
            None => None,
            Some(st) => {
                let t = ts.last();
                match t.kind {
                    TokenKind::GroupDelim { delim: Some(d), id } => if id == t.span && t.span.end
                        == t.span.start + delim_width(d) {
                        Some(st.push((d, id)))
                    } else {
                        None
                    },
                    TokenKind::GroupDelim { delim: None, id } => if st.len() > 0 && st.last().1
                        == id && t.span.end == t.span.start + 1 {
                        Some(st.drop_last())
                    } else {
                        None
                    },
                    _ => Some(st),
                }
            },
        }
    }
}

/// The delimiters of `ts` balance: every group is closed, in order.
pub open spec fn balanced(ts: Seq<Token>) -> bool {
    open_groups(ts) == Some(Seq::<(Delim, Span)>::empty())
}

/// The byte that closes a group opened by `d`.
pub open spec fn closing_byte(d: Delim) -> u8 {
    match d {
        Delim::Bracket => 93u8,
        Delim::Brace => 125u8,
        _ => 41u8,
    }
}

/// The lexer's stack of open groups agrees with its tokens.
pub open spec fn groups_agree(m: LexModel) -> bool {
    match open_groups(m.tokens) {
        None => false,
        Some(st) => {
            &&& st.len() == m.group_stack.len()
            &&& forall|i: int|
                0 <= i < st.len() ==> #[trigger] m.group_stack[i] == (closing_byte(st[i].0), st[i].1)
        },
    }
}

proof fn lemma_push_plain(ts: Seq<Token>, t: Token)
    requires
        !(t.kind is GroupDelim),
    ensures
        open_groups(ts.push(t)) == open_groups(ts),
{
    assert(ts.push(t).drop_last() =~= ts);
}

proof fn lemma_push_any(ts: Seq<Token>, t: Token)
    ensures
        ts.push(t).drop_last() == ts,
        ts.push(t).last() == t,
{
    assert(ts.push(t).drop_last() =~= ts);
}

/// A step that pushes no delimiter token keeps the group stack in agreement
/// with the tokens.
proof fn lemma_plain_step_groups(m: LexModel, m2: LexModel)
    requires
        groups_agree(m),
        m2.group_stack == m.group_stack,
        m2.tokens == m.tokens || (m2.tokens.len() == m.tokens.len() + 1 && m2.tokens.drop_last()
            == m.tokens && !(m2.tokens.last().kind is GroupDelim)),
    ensures
        groups_agree(m2),
{
    if m2.tokens != m.tokens {
        lemma_push_plain(m.tokens, m2.tokens.last());
        assert(m.tokens.push(m2.tokens.last()) =~= m2.tokens);
    }
}

proof fn lemma_init_groups(m: LexModel, inp: Seq<u8>)
    requires
        lex_wf(m, inp),
        groups_agree(m),
        m.state == LexState::Init,
        step_spec(m, inp).1 is Continue,
    ensures
        groups_agree(step_spec(m, inp).0),
{
    assert forall|ts: Seq<Token>, t: Token| !(t.kind is GroupDelim) implies open_groups(
        #[trigger] ts.push(t),
    ) == open_groups(ts) by {
        lemma_push_plain(ts, t);
    }
    assert forall|ts: Seq<Token>, t: Token| #[trigger] ts.push(t).drop_last() == ts by {
        lemma_push_any(ts, t);
    }
    let m2 = step_spec(m, inp).0;
    if m2.group_stack != m.group_stack {
        let st = open_groups(m.tokens)->0;
        let st2 = open_groups(m2.tokens)->0;
        assert(st2.len() == m2.group_stack.len());
        assert forall|i: int| 0 <= i < st2.len() implies #[trigger] m2.group_stack[i] == (
            closing_byte(st2[i].0),
            st2[i].1,
        ) by {
            if i < st.len() {
                assert(m.group_stack[i] == (closing_byte(st[i].0), st[i].1));
            }
        }
    }
}

/// A step keeps the group stack in agreement with the tokens.
proof fn lemma_step_groups(m: LexModel, inp: Seq<u8>)
    requires
        lex_wf(m, inp),
        groups_agree(m),
        step_spec(m, inp).1 is Continue,
    ensures
        groups_agree(step_spec(m, inp).0),
{
    if m.state == LexState::Init {
        lemma_init_groups(m, inp);
    } else {
        let m2 = step_spec(m, inp).0;
        assert(m2.group_stack == m.group_stack);
        assert(m2.tokens == m.tokens || (m2.tokens.len() == m.tokens.len() + 1
            && m2.tokens.drop_last() == m.tokens && !(m2.tokens.last().kind is GroupDelim)));
        lemma_plain_step_groups(m, m2);
    }
}

/// The end of a run leaves the group stack in agreement with the tokens.
proof fn lemma_run_groups(m: LexModel, inp: Seq<u8>)
    requires
        lex_wf(m, inp),
        groups_agree(m),
    ensures
        run(m, inp).1 is Eof ==> groups_agree(run(m, inp).0) && run(m, inp).0.group_stack.len()
            == 0,
    decreases measure(m, inp),
{
    if step_spec(m, inp).1 is Continue {
        lemma_step_progress(m, inp);
        lemma_step_groups(m, inp);
        lemma_run_groups(step_spec(m, inp).0, inp);
    }
}

} // verus!

verus! {

/// After a run that reaches the end of the input without an error, every
/// group the lexer opened is closed, in order: the delimiters balance.
pub proof fn lemma_lex_balanced(inp: Seq<u8>)
    requires
        inp.len() + 512 <= usize::MAX,
    ensures
        crate::lex::lex_run(inp).1 is Eof ==> balanced(crate::lex::lex_run(inp).0.tokens),
{
    let m0 = crate::lex::initial_model();
    assert(groups_agree(m0));
    lemma_run_groups(m0, inp);
    let m = crate::lex::lex_run(inp).0;
    if crate::lex::lex_run(inp).1 is Eof {
        assert(open_groups(m.tokens)->0 =~= Seq::<(Delim, Span)>::empty());
    }
}

} // verus!

verus! {

/// Where the tokens read so far end at the latest: the start of the token
/// being read, or the cursor between tokens.
pub open spec fn frontier(m: LexModel) -> int {
    match m.state {
        LexState::Init => m.cursor,
        LexState::StringPrefix => m.cursor,
        LexState::StringInit { binary, .. } => if binary && m.cursor > 0 {
            m.cursor - 1
        } else {
            m.cursor as int
        },
        LexState::LineComment => m.cursor,
        LexState::BlockComment => m.cursor,
        _ => m.token_start,
    }
}

/// Every token covers at least one byte, ends by `bound`, and the tokens
/// follow one another without overlapping.
pub open spec fn spans_in_order(ts: Seq<Token>, bound: int) -> bool {
    &&& forall|i: int| 0 <= i < ts.len() ==> #[trigger] ts[i].span.start < ts[i].span.end <= bound
    &&& forall|i: int, j: int|
        0 <= i < j < ts.len() ==> #[trigger] ts[i].span.end <= #[trigger] ts[j].span.start
}

/// The token being read has at least one byte, or will have.
pub open spec fn token_started(m: LexModel, inp: Seq<u8>) -> bool {
    match m.state {
        LexState::Identifier => m.cursor > m.token_start || crate::lex::machine::at(inp, m.cursor)
            >= 192,
        LexState::FieldModifier => m.cursor > m.token_start,
        LexState::Integer => m.cursor > m.token_start,
        LexState::Fraction => m.cursor > m.token_start,
        LexState::DocComment => m.cursor > m.token_start,
        LexState::String { .. } => m.cursor > m.token_start,
        LexState::FormattedString { .. } => m.cursor > m.token_start,
        LexState::Char { .. } => m.cursor > m.token_start,
        _ => true,
    }
}

pub open spec fn placed(m: LexModel, inp: Seq<u8>) -> bool {
    spans_in_order(m.tokens, frontier(m)) && token_started(m, inp)
}

proof fn lemma_push_placed(ts: Seq<Token>, bound: int, t: Token, bound2: int)
    requires
        spans_in_order(ts, bound),
        bound <= t.span.start < t.span.end <= bound2,
    ensures
        spans_in_order(ts.push(t), bound2),
{
    let ts2 = ts.push(t);
    assert forall|i: int, j: int| 0 <= i < j < ts2.len() implies #[trigger] ts2[i].span.end
        <= #[trigger] ts2[j].span.start by {
        if j < ts.len() {
            assert(ts2[i] == ts[i] && ts2[j] == ts[j]);
        } else {
            assert(ts2[i] == ts[i]);
            assert(ts[i].span.start < ts[i].span.end <= bound);
        }
    }
    assert forall|i: int| 0 <= i < ts2.len() implies #[trigger] ts2[i].span.start
        < ts2[i].span.end <= bound2 by {
        if i < ts.len() {
            assert(ts2[i] == ts[i]);
        }
    }
}

proof fn lemma_widen(ts: Seq<Token>, bound: int, bound2: int)
    requires
        spans_in_order(ts, bound),
        bound <= bound2,
    ensures
        spans_in_order(ts, bound2),
{
}

/// A step keeps the tokens in order.
proof fn lemma_step_placed(m: LexModel, inp: Seq<u8>)
    requires
        lex_wf(m, inp),
        placed(m, inp),
        step_spec(m, inp).1 is Continue,
    ensures
        placed(step_spec(m, inp).0, inp),
{
    let m2 = step_spec(m, inp).0;
    lemma_step_progress(m, inp);
    if m2.tokens == m.tokens {
        lemma_widen(m.tokens, frontier(m), frontier(m2));
    } else if m2.tokens.len() == m.tokens.len() + 1 {
        assert(m.tokens.push(m2.tokens.last()) =~= m2.tokens);
        lemma_push_placed(m.tokens, frontier(m), m2.tokens.last(), frontier(m2));
    } else {
        let t1 = m2.tokens[m.tokens.len() as int];
        let t2 = m2.tokens.last();
        assert(m.tokens.push(t1) =~= m2.tokens.drop_last());
        assert(m.tokens.push(t1).push(t2) =~= m2.tokens);
        lemma_push_placed(m.tokens, frontier(m), t1, t1.span.end as int);
        lemma_push_placed(m.tokens.push(t1), t1.span.end as int, t2, frontier(m2));
    }
}

proof fn lemma_run_placed(m: LexModel, inp: Seq<u8>)
    requires
        lex_wf(m, inp),
        placed(m, inp),
    ensures
        spans_in_order(run(m, inp).0.tokens, inp.len() as int),
    decreases measure(m, inp),
{
    if step_spec(m, inp).1 is Continue {
        lemma_step_progress(m, inp);
        lemma_step_placed(m, inp);
        lemma_run_placed(step_spec(m, inp).0, inp);
    } else {
        lemma_widen(m.tokens, frontier(m), inp.len() as int);
        if step_spec(m, inp).1 is Eof {
            assert(step_spec(m, inp).0 == m);
        }
    }
}

/// Every token the lexer produces covers at least one byte of the input, and
/// the tokens follow one another in the input without overlapping.
pub proof fn lemma_lex_spans(inp: Seq<u8>)
    requires
        inp.len() + 512 <= usize::MAX,
    ensures
        spans_in_order(crate::lex::lex_run(inp).0.tokens, inp.len() as int),
{
    lemma_run_placed(crate::lex::initial_model(), inp);
}


/// A punctuation token is written in `inp` as that punctuation, and an
/// opening delimiter as its opening marker.
pub open spec fn token_spelled(t: Token, inp: Seq<u8>) -> bool {
    let code = inp.subrange(t.span.start as int, t.span.end as int);
    &&& t.kind matches TokenKind::Punct(p) ==> t.span.start <= t.span.end <= inp.len() && code
        == punct_text(p)
    &&& t.kind matches TokenKind::GroupDelim { delim: Some(d), .. } ==> t.span.start <= t.span.end
        <= inp.len() && code == open_marker(d)
}

pub open spec fn tokens_spelled(ts: Seq<Token>, inp: Seq<u8>) -> bool {
    forall|i: int| 0 <= i < ts.len() ==> token_spelled(#[trigger] ts[i], inp)
}

/// Every punctuation token of `ts` is written in `inp` as that punctuation.
pub open spec fn puncts_spelled(ts: Seq<Token>, inp: Seq<u8>) -> bool {
    forall|i: int, strings: Seq<Seq<u8>>|
        #![trigger token_text_ok(ts[i], inp, strings)]
        0 <= i < ts.len() && ts[i].kind is Punct ==> token_text_ok(ts[i], inp, strings)
}

/// The two bytes that the lexer reads as one punctuation spell it.
proof fn lemma_punct_pair_text(x: i32, y: i32)
    requires
        punct_pair(x, y) is Some,
    ensures
        0 <= x < 256,
        0 <= y < 256,
        punct_text(punct_pair(x, y)->0) == seq![x as u8, y as u8],
{
}

proof fn lemma_push_spelled(ts: Seq<Token>, inp: Seq<u8>, t: Token)
    requires
        tokens_spelled(ts, inp),
        token_spelled(t, inp),
    ensures
        tokens_spelled(ts.push(t), inp),
{
    let ts2 = ts.push(t);
    assert forall|i: int| 0 <= i < ts2.len() implies token_spelled(#[trigger] ts2[i], inp) by {
        if i < ts.len() {
            assert(ts2[i] == ts[i]);
        }
    }
}

/// A step keeps every punctuation and opening delimiter spelled as it is
/// written.
proof fn lemma_step_spelled(m: LexModel, inp: Seq<u8>)
    requires
        lex_wf(m, inp),
        tokens_spelled(m.tokens, inp),
        step_spec(m, inp).1 is Continue,
    ensures
        tokens_spelled(step_spec(m, inp).0.tokens, inp),
{
    let m2 = step_spec(m, inp).0;
    let c = m.cursor;
    let c0 = at(inp, c);
    let c1 = at(inp, c + 1);
    let c2 = at(inp, c + 2);
    if m2.tokens == m.tokens {
    } else if m2.tokens.len() == m.tokens.len() + 1 {
        let t = m2.tokens.last();
        assert(m.tokens.push(t) =~= m2.tokens);
        if t.kind is Punct || t.kind is GroupDelim {
            assert(m.state == LexState::Init);
            assert(0 <= c < inp.len());
            if t.kind is GroupDelim {
                if c0 == 92 {
                    assert(inp.subrange(c, c + 2) =~= seq![92u8, 40]);
                } else {
                    assert(inp.subrange(c, c + 1) =~= seq![c0 as u8]);
                }
            } else if c0 == 46 && c1 == 46 && c2 == 61 {
                assert(inp.subrange(c, c + 3) =~= seq![46u8, 46, 61]);
            } else if is_punct_first(c0) && is_punct_second(c1) {
                lemma_punct_pair_text(c0, c1);
                assert(inp.subrange(c, c + 2) =~= seq![c0 as u8, c1 as u8]);
            } else {
                assert(inp.subrange(c, c + 1) =~= seq![c0 as u8]);
            }
        }
        lemma_push_spelled(m.tokens, inp, t);
    } else {
        let t1 = m2.tokens[m.tokens.len() as int];
        let t2 = m2.tokens.last();
        assert(m.tokens.push(t1) =~= m2.tokens.drop_last());
        assert(m.tokens.push(t1).push(t2) =~= m2.tokens);
        if t1.kind is Punct || t2.kind is Punct || t1.kind is GroupDelim || t2.kind is GroupDelim {
            assert(m.state == LexState::Init);
            assert(0 <= c && c + 1 < inp.len());
            assert(inp.subrange(c, c + 1) =~= seq![c0 as u8]);
            assert(inp.subrange(c + 1, c + 2) =~= seq![c1 as u8]);
        }
        lemma_push_spelled(m.tokens, inp, t1);
        lemma_push_spelled(m.tokens.push(t1), inp, t2);
    }
}

proof fn lemma_run_spelled(m: LexModel, inp: Seq<u8>)
    requires
        lex_wf(m, inp),
        tokens_spelled(m.tokens, inp),
    ensures
        tokens_spelled(run(m, inp).0.tokens, inp),
    decreases measure(m, inp),
{
    if step_spec(m, inp).1 is Continue {
        lemma_step_progress(m, inp);
        lemma_step_spelled(m, inp);
        lemma_run_spelled(step_spec(m, inp).0, inp);
    } else {
        lemma_step_spelled_end(m, inp);
    }
}

/// A step that ends the run pushes no token.
proof fn lemma_step_spelled_end(m: LexModel, inp: Seq<u8>)
    requires
        lex_wf(m, inp),
        !(step_spec(m, inp).1 is Continue),
    ensures
        step_spec(m, inp).0.tokens == m.tokens,
{
}

/// Every punctuation token the lexer produces is written in the input as
/// that punctuation, and every opening delimiter as its marker: the bytes
/// under its span are its spelling, so the lexer never reads one
/// punctuation or delimiter for another, and the span check accepts each
/// punctuation it produces.
pub proof fn lemma_lex_puncts(inp: Seq<u8>)
    requires
        inp.len() + 512 <= usize::MAX,
    ensures
        tokens_spelled(crate::lex::lex_run(inp).0.tokens, inp),
        puncts_spelled(crate::lex::lex_run(inp).0.tokens, inp),
{
    let ts = crate::lex::lex_run(inp).0.tokens;
    lemma_run_spelled(crate::lex::initial_model(), inp);
    assert forall|i: int, strings: Seq<Seq<u8>>|
        #![trigger token_text_ok(ts[i], inp, strings)]
        0 <= i < ts.len() && ts[i].kind is Punct implies token_text_ok(ts[i], inp, strings) by {
        assert(token_spelled(ts[i], inp));
    }
}

} // verus!
