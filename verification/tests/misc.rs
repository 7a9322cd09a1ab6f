use sodigy::inter_mir::error::{ErrorContext, ExprContext, FuncOrigin, LetOrigin};
use sodigy::interp::{inspect_list, Error};
use sodigy::inter_hir::log::{LogId, LogIdCounter};
use sodigy::inter_mir::log::LogId as MirLogId;
use sodigy::inter_mir::log::LogIdCounter as MirCounter;
use sodigy::keyword::Keyword;

#[test]
fn hir_log_ids_count_up() {
    let mut c = LogIdCounter::new();
    assert_eq!(LogId::new(&mut c), LogId(0));
    assert_eq!(LogId::new(&mut c), LogId(1));
    assert_eq!(c.next, 2);
    let mut c = LogIdCounter { next: u32::MAX };
    assert_eq!(LogId::new(&mut c), LogId(u32::MAX));
    assert_eq!(LogId::new(&mut c), LogId(0));
}

#[test]
fn mir_log_ids_count_up() {
    let mut c = MirCounter::new();
    let a = MirLogId::new(&mut c);
    let b = MirLogId::new(&mut c);
    assert_ne!(a, b);
    assert_eq!(b, MirLogId(1));
}

#[test]
fn expr_context_from_origins() {
    assert_eq!(ExprContext::from(LetOrigin::TopLevel), ExprContext::TopLevelLet);
    assert_eq!(ExprContext::from(LetOrigin::Match), ExprContext::InlineLet);
    assert_eq!(ExprContext::from(LetOrigin::StructDefaultValue), ExprContext::StructDefaultValue);
    assert_eq!(ExprContext::from(FuncOrigin::AssociatedFunc), ExprContext::TopLevelFunc);
    assert_eq!(ExprContext::from(FuncOrigin::Lambda), ExprContext::Lambda);
    assert_eq!(ExprContext::from(FuncOrigin::Monomorphization), ExprContext::Monomorphization);
}

#[test]
fn list_elements() {
    // a buffer of length 3 at 0, then a list at 4 that views two elements from index 1
    let heap: Vec<u32> = vec![3, 10, 20, 30, 0, 1, 2];
    assert_eq!(inspect_list(&heap, 4), &[20u32, 30][..]);
}

#[test]
fn keywords_and_errors() {
    assert_ne!(Keyword::Let, Keyword::Fn);
    let e = Error::NonZeroExit(3);
    assert!(matches!(e, Error::NonZeroExit(3)));
}

#[test]
fn error_context_notes() {
    assert_eq!(
        ErrorContext::AssertConditionBool.note(),
        Some(String::from("An assertion must be a boolean."))
    );
    assert_eq!(
        ErrorContext::OrPatternNameBinding(String::from("x")).note(),
        Some(String::from(
            "Name `x` is bound multiple times in `|` pattern, but they have different types."
        ))
    );
    assert_eq!(ErrorContext::EqualGenericParams { def: 1, call: 2, i: 0, j: 1 }.note(), None);
    assert_eq!(ErrorContext::NoContext.note(), None);
    assert!(ErrorContext::Deep.note().unwrap().starts_with("A contradiction is found"));
}
