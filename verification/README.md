# regex_anre

A regular-expression engine whose lexers, parser, compiler and matcher are
verified with Verus.

- `src/traditional/`: the lexer and parser of traditional regex syntax;
  `parse_from_str` gives exactly the syntax tree that the grammar in
  `traditional/parser.rs` describes.
- `src/lexer.rs`, `src/anre/`: the lexer of the ANRE language, and the
  comment remover and macro expander that work on its tokens.
- `src/ast.rs`, `src/printer.rs`: the syntax tree and its ANRE text.
- `src/compiler.rs`, `src/graph.rs`, `src/rulechecker.rs`: the compiler
  from syntax tree to object file (a set of routes of nodes and
  transitions), the routes it builds (`program_routes`), and the match
  lengths that look-behind assertions need.
- `src/transition.rs`, `src/process.rs`: the transitions and the
  backtracking matcher, specified by `routine_outcome`, `main_search` and
  `match_from`; `Regex`, `Match` and `Captures` are the public API.
- `src/match_bounds.rs`: where the matches of a compiled pattern lie: each
  is the leftmost one from where its search began, and an iteration over
  the matches moves forward, past empty matches, until the text ends.
- `src/char_boundaries.rs`: in a valid UTF-8 text every capture range
  starts and ends at a character boundary, so the text of a match is the
  slice of the text that its range covers.
- `app/lib.rs`: the error type with `Display` and `std::error::Error`.
