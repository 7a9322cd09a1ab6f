//! Where an expression stands, for the type solver's error messages.
use vstd::prelude::*;
use vstd::string::StringExecFns;

verus! {

/// Where a `let` stands.
#[derive(Clone, Copy, Debug, PartialEq, Eq, Structural)]
pub enum LetOrigin {
    TopLevel,
    Inline,
    FuncDefaultValue,
    StructDefaultValue,
    Match,
}

/// Where a function is defined.
#[derive(Clone, Copy, Debug, PartialEq, Eq, Structural)]
pub enum FuncOrigin {
    TopLevel,
    Inline,
    Lambda,
    AssociatedFunc,
    Monomorphization,
}

#[derive(Clone, Copy, Debug, PartialEq, Eq, Structural)]
pub enum ExprContext {
    TopLevelLet,
    InlineLet,
    FuncDefaultValue,
    StructDefaultValue,
    TopLevelFunc,
    InlineFunc,
    Lambda,
    TopLevelAssert,
    Monomorphization,
}

/// The context of the value of a `let`: a `let` in a match arm counts as
/// an inline one.
pub open spec fn let_context(o: LetOrigin) -> ExprContext {
    match o {
        LetOrigin::TopLevel => ExprContext::TopLevelLet,
        LetOrigin::Inline => ExprContext::InlineLet,
        LetOrigin::FuncDefaultValue => ExprContext::FuncDefaultValue,
        LetOrigin::StructDefaultValue => ExprContext::StructDefaultValue,
        LetOrigin::Match => ExprContext::InlineLet,
    }
}

/// The context of a function's body: an associated function counts as a
/// top-level one.
pub open spec fn func_context(o: FuncOrigin) -> ExprContext {
    match o {
        FuncOrigin::TopLevel => ExprContext::TopLevelFunc,
        FuncOrigin::Inline => ExprContext::InlineFunc,
        FuncOrigin::Lambda => ExprContext::Lambda,
        FuncOrigin::AssociatedFunc => ExprContext::TopLevelFunc,
        FuncOrigin::Monomorphization => ExprContext::Monomorphization,
    }
}

impl From<LetOrigin> for ExprContext {
    fn from(o: LetOrigin) -> (r: ExprContext) {
        match o {
            LetOrigin::TopLevel => ExprContext::TopLevelLet,
            LetOrigin::Inline => ExprContext::InlineLet,
            LetOrigin::FuncDefaultValue => ExprContext::FuncDefaultValue,
            LetOrigin::StructDefaultValue => ExprContext::StructDefaultValue,
            LetOrigin::Match => ExprContext::InlineLet,
        }
    }
}

impl vstd::std_specs::convert::FromSpecImpl<LetOrigin> for ExprContext {
    open spec fn obeys_from_spec() -> bool {
        true
    }

    open spec fn from_spec(o: LetOrigin) -> ExprContext {
        let_context(o)
    }
}

impl From<FuncOrigin> for ExprContext {
    fn from(o: FuncOrigin) -> (r: ExprContext) {
        match o {
            FuncOrigin::TopLevel => ExprContext::TopLevelFunc,
            FuncOrigin::Inline => ExprContext::InlineFunc,
            FuncOrigin::Lambda => ExprContext::Lambda,
            FuncOrigin::AssociatedFunc => ExprContext::TopLevelFunc,
            FuncOrigin::Monomorphization => ExprContext::Monomorphization,
        }
    }
}

impl vstd::std_specs::convert::FromSpecImpl<FuncOrigin> for ExprContext {
    open spec fn obeys_from_spec() -> bool {
        true
    }

    open spec fn from_spec(o: FuncOrigin) -> ExprContext {
        func_context(o)
    }
}

} // verus!

verus! {

/// Why two types were compared, for the note of a type error.
pub enum ErrorContext {
    AssertConditionBool,
    ShortCircuitAndBool,
    ShortCircuitOrBool,
    IfConditionBool,
    IfValueEqual,
    MatchScrutinee,
    MatchGuardBool,
    MatchArmEqual,
    InferTypeAnnot,
    VerifyTypeAnnot,
    ListElementEqual,
    FuncArgs,
    StructFields,
    EqValueEqual,
    NeqValueEqual,
    OrPatternEqual,
    /// A name bound on both sides of a `|` pattern, by its text.
    OrPatternNameBinding(String),
    RangePatternEqual,
    TypeAssertion,
    FieldUpdate,
    /// Spans by their ids.
    EqualGenericParams { def: u64, call: u64, i: usize, j: usize },
    /// The same type variable, by its span's id, was inferred twice with
    /// different results.
    InferedAgain { type_var: u64 },
    Deep,
    /// Nothing special about the context, or the error kind tells it all.
    NoContext,
}

/// The note for a name bound with two types in a `|` pattern.
pub open spec fn name_binding_text(name: Seq<char>) -> Seq<char> {
    "Name `"@ + name + "` is bound multiple times in `|` pattern, but they have different types."@
}

/// The note for a name bound with two types in a `|` pattern, with the
/// name put in.
fn name_binding_note(name: &String) -> (r: String)
    ensures
        r@ == name_binding_text(name@),
{
    let mut r = String::from_str("Name `");
    r.append(name.as_str());
    r.append("` is bound multiple times in `|` pattern, but they have different types.");
    r
}

/// The note that a type error in the context `c` gets, if any.
pub open spec fn note_text(c: ErrorContext) -> Option<Seq<char>> {
    match c {
        ErrorContext::AssertConditionBool => Some("An assertion must be a boolean."@),
        ErrorContext::ShortCircuitAndBool => Some("Lhs and rhs of `&&` operator must be booleans."@),
        ErrorContext::ShortCircuitOrBool => Some("Lhs and rhs of `||` operator must be booleans."@),
        ErrorContext::IfConditionBool => Some("A condition of an `if` expression must be a boolean."@),
        ErrorContext::IfValueEqual => Some("All branches of an `if` expression must have the same type."@),
        ErrorContext::MatchScrutinee => Some("A pattern of a match arm and the match's scrutinee must have the same type."@),
        ErrorContext::MatchGuardBool => Some("A guard of a match arm must be a boolean."@),
        ErrorContext::MatchArmEqual => Some("All arms of a `match` expression must have the same type."@),
        ErrorContext::InferTypeAnnot => Some("There's an error while doing type-inference."@),
        ErrorContext::VerifyTypeAnnot => Some("A value's type annotation and its actual type do not match."@),
        ErrorContext::ListElementEqual => Some("All elements of a list must have the same type."@),
        ErrorContext::FuncArgs => Some("Arguments of this function are incorrect."@),
        ErrorContext::StructFields => Some("Fields of this struct are incorrect."@),
        ErrorContext::EqValueEqual => Some("Lhs and rhs of `==` operator must have the same type."@),
        ErrorContext::NeqValueEqual => Some("Lhs and rhs of `!=` operator must have the same type."@),
        ErrorContext::OrPatternEqual => Some("Lhs and rhs of `|` pattern must have the same type."@),
        ErrorContext::OrPatternNameBinding(name) => Some(name_binding_text(name@)),
        ErrorContext::RangePatternEqual => Some("Lhs and rhs of `..` pattern must have the same type."@),
        ErrorContext::TypeAssertion => Some("Asserted type and the actual type are different."@),
        ErrorContext::FieldUpdate => Some("In a field-update expression, the type of the value and the field have to be the same."@),
        ErrorContext::EqualGenericParams { .. } => None,
        ErrorContext::InferedAgain { .. } => Some("I infered a type of the same value multiple times, and got different results."@),
        ErrorContext::Deep => Some("A contradiction is found while solving a chain of type-equations. There must be type error somewhere, but I can't find the exact location."@),
        ErrorContext::NoContext => None,
    }
}

impl ErrorContext {
    /// The note that a type error in this context gets, if any.
    pub fn note(&self) -> (r: Option<String>)
        ensures
            match (r, note_text(*self)) {
                (Some(m), Some(t)) => m@ == t,
                (None, None) => true,
                _ => false,
            },
    {
        match self {
            ErrorContext::AssertConditionBool => Some("An assertion must be a boolean.".to_owned()),
            ErrorContext::ShortCircuitAndBool => Some("Lhs and rhs of `&&` operator must be booleans.".to_owned()),
            ErrorContext::ShortCircuitOrBool => Some("Lhs and rhs of `||` operator must be booleans.".to_owned()),
            ErrorContext::IfConditionBool => Some("A condition of an `if` expression must be a boolean.".to_owned()),
            ErrorContext::IfValueEqual => Some("All branches of an `if` expression must have the same type.".to_owned()),
            ErrorContext::MatchScrutinee => Some("A pattern of a match arm and the match's scrutinee must have the same type.".to_owned()),
            ErrorContext::MatchGuardBool => Some("A guard of a match arm must be a boolean.".to_owned()),
            ErrorContext::MatchArmEqual => Some("All arms of a `match` expression must have the same type.".to_owned()),
            ErrorContext::InferTypeAnnot => Some("There's an error while doing type-inference.".to_owned()),
            ErrorContext::VerifyTypeAnnot => Some("A value's type annotation and its actual type do not match.".to_owned()),
            ErrorContext::ListElementEqual => Some("All elements of a list must have the same type.".to_owned()),
            ErrorContext::FuncArgs => Some("Arguments of this function are incorrect.".to_owned()),
            ErrorContext::StructFields => Some("Fields of this struct are incorrect.".to_owned()),
            ErrorContext::EqValueEqual => Some("Lhs and rhs of `==` operator must have the same type.".to_owned()),
            ErrorContext::NeqValueEqual => Some("Lhs and rhs of `!=` operator must have the same type.".to_owned()),
            ErrorContext::OrPatternEqual => Some("Lhs and rhs of `|` pattern must have the same type.".to_owned()),
            ErrorContext::OrPatternNameBinding(name) => Some(name_binding_note(name)),
            ErrorContext::RangePatternEqual => Some("Lhs and rhs of `..` pattern must have the same type.".to_owned()),
            ErrorContext::TypeAssertion => Some("Asserted type and the actual type are different.".to_owned()),
            ErrorContext::FieldUpdate => Some("In a field-update expression, the type of the value and the field have to be the same.".to_owned()),
            ErrorContext::EqualGenericParams { .. } => None,
            ErrorContext::InferedAgain { .. } => Some("I infered a type of the same value multiple times, and got different results.".to_owned()),
            ErrorContext::Deep => Some("A contradiction is found while solving a chain of type-equations. There must be type error somewhere, but I can't find the exact location.".to_owned()),
            ErrorContext::NoContext => None,
        }
    }
}

} // verus!
