# sodigy

The verified core of the Sodigy compiler and interpreter, written in Verus.

- `lex`: the lexer, a state machine over bytes; it always ends, and a
  successful run yields tokens with ordered, in-bounds spans, balanced
  delimiters, and token trees that flatten back to the token list.
- `inter_hir`, `inter_mir`: log ids, error contexts and their notes, and the
  poly solver's state machine (building it from the implementations,
  cutting implementations whose generic cannot take two types, optimizing
  it, and looking candidates up), and the decisions between the type
  solver's rounds.
- `heap`: the interpreter's heap with segregated free lists, its
  well-formedness invariant and the integrity check, and the layout of
  values, tuples and lists.
- `interp`: registers and memory operands, and one step of the bytecode
  machine: each instruction and terminator, with the nested calls, printing,
  sleeping and big-integer arithmetic handed back to the caller.

`app/` holds the call loop that runs a program and performs what the steps
hand back.

## What is not here

The type solver's expression, pattern and subtyping rules
(`solve_expr`, `solve_pattern_kind`, `solve_supertype`), the rounds that run
them (`solve_type`; only the decision between rounds is in `inter_mir::rounds`),
the rendering of type errors (`type_error_to_general_error`), and name
resolution (`resolve_expr`, `resolve_associated_items`,
`check_pattern_kind_path`) are not part of this crate. They work on the
intermediate representations and shared types (types, expressions, patterns,
spans, errors, interned strings) of the compiler's other crates, whose
definitions are not available here; the subtyping solver also recurses into
types that it looks up in its own tables of solved type variables, which can
refer to one another in cycles, so its termination rests on the state of
those tables rather than on the size of its arguments.
