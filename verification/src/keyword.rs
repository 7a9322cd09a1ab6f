use vstd::prelude::*;

verus! {

/// The reserved words of the language.
#[derive(Clone, Copy, Debug, PartialEq, Eq, Structural)]
pub enum Keyword {
    Let,
    Fn,
    Struct,
    Enum,
    Assert,
    Module,
    Use,
    If,
    Else,
    Match,
}

} // verus!
