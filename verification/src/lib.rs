pub mod heap;
pub mod inter_hir;
pub mod inter_mir;
pub mod interp;
pub mod keyword;
pub mod lex;
