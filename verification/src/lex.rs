//! The lexer: from the bytes of a source file to tokens.
pub mod literal_steps;
pub mod machine;
pub mod scan;
pub mod session;
pub mod steps;
pub mod token;
pub mod word_steps;

use crate::lex::machine::{lex_wf, run, step_spec, LexModel, LexState, Outcome};
use crate::lex::session::{table_view, Session};
use crate::lex::tree::{flatten_trees, group_tokens, plain_trees};
use vstd::prelude::*;

verus! {

/// The model of a session before the first step.
pub open spec fn initial_model() -> LexModel {
    LexModel {
        state: LexState::Init,
        cursor: 0,
        token_start: 0,
        tokens: seq![],
        group_stack: seq![],
        buffer1: seq![],
        buffer2: seq![],
        strings: seq![],
    }
}

/// The lexer run over the whole input: the last model and how it ended.
pub open spec fn lex_run(inp: Seq<u8>) -> (LexModel, Outcome) {
    run(initial_model(), inp)
}

/// Lexing `inp` panics: it reaches a construct that is not lexed yet.
pub open spec fn lex_panics(inp: Seq<u8>) -> bool {
    lex_run(inp).1 is Panic
}

/// What a session holds after lexing `inp`: the tokens and strings of the
/// run, and its error if it failed.
pub open spec fn lexed(inp: Seq<u8>, s: Session) -> bool {
    let (m, o) = lex_run(inp);
    &&& s.input_bytes@ == inp
    &&& s.tokens@ == m.tokens
    &&& table_view(s.strings@) == m.strings
    &&& match o {
        Outcome::Eof => {
            &&& s.errors@ == Seq::<crate::lex::token::Error>::empty()
            &&& flatten_trees(s.token_trees@) == m.tokens
            &&& plain_trees(s.token_trees@)
        },
        Outcome::Fail(e) => s.errors@ == seq![e] && s.token_trees@.len() == 0,
        _ => false,
    }
}

/// Lexes `input`, which must not hold a construct that is not lexed yet
/// (see `lex_panics`).
pub fn lex(input: Vec<u8>, is_std: bool) -> (session: Session)
    requires
        input@.len() + 512 <= usize::MAX,
        !lex_panics(input@),
    ensures
        lexed(input@, session),
        session.is_std == is_std,
{
    let r = try_lex(input, is_std);
    r.unwrap()
}

/// Lexes `input`, or gives `None` where it holds a construct that is not
/// lexed yet.
pub fn try_lex(input: Vec<u8>, is_std: bool) -> (r: Option<Session>)
    requires
        input@.len() + 512 <= usize::MAX,
    ensures
        match r {
            None => lex_panics(input@),
            Some(session) => lexed(input@, session) && session.is_std == is_std,
        },
{
    let mut session = Session {
        input_bytes: input,
        state: LexState::Init,
        cursor: 0,
        tokens: Vec::new(),
        is_std,
        group_stack: Vec::new(),
        token_start: 0,
        buffer1: Vec::new(),
        buffer2: Vec::new(),
        strings: Vec::new(),
        errors: Vec::new(),
        token_trees: Vec::new(),
    };
    let ghost inp = session.input_bytes@;
    proof {
        assert(session.model() =~= initial_model());
    }
    loop
        invariant_except_break
            session.errors@ == Seq::<crate::lex::token::Error>::empty(),
            session.token_trees@.len() == 0,
            lex_wf(session.model(), inp),
            run(session.model(), inp) == lex_run(inp),
        invariant
            session.input_bytes@ == inp,
            inp == input@,
            session.is_std == is_std,
        ensures
            lexed(inp, session),
            session.is_std == is_std,
        decreases crate::lex::machine::measure(session.model(), inp),
    {
        let ghost before = session.model();
        proof {
            if step_spec(before, inp).1 is Continue {
                crate::lex::machine::lemma_step_progress(before, inp);
            }
        }
        match session.step() {
            None => {
                proof {
                    assert(run(before, inp).1 is Panic);
                    assert(lex_panics(inp));
                }
                return None;
            },
            Some(Ok(true)) => {
                proof {
                    crate::lex::laws::lemma_lex_balanced(inp);
                }
                session.token_trees = group_tokens(session.tokens.as_slice());
                break ;
            },
            Some(Ok(false)) => {},
            Some(Err(e)) => {
                session.errors.push(e);
                break ;
            },
        }
    }
    Some(session)
}

} // verus!
pub mod tree;
pub mod laws;
pub mod validate;
