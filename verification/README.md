# rock

The front end of the Rock language, verified with Verus: a lexer that turns
source text into tokens (each line opening with its indentation), an
indentation-aware parser that builds the syntax tree of a program, and the
expansion of the macros that the program declares and invokes.

## Layout

- `src/lexer/`: characters, tokens, spans and the lexer. The contract of
  `Lexer::next` says which token is read at the next non-blank character;
  that of `Lexer::collect` says that its tokens are those reads, one after
  the other, up to the end of the input.
- `src/parser/`: the parsing context (indentation level and step), the
  parsers of each construct under `items/`, and helpers under `util/`.
  Every parser that succeeds leaves a suffix of its input.
- `src/macro_expansion/`: what macro variables matched (`correspondance`),
  the matching of arguments against a pattern (`matcher`) and the expansion
  itself (`expand`).
- `src/diagnostic.rs`, `src/config.rs`, `src/fmt.rs`: diagnostics made from
  parse errors, the configuration and command-line values, and the text of
  types and paths.
- `app/`: the `rock` and `rockc` command lines, file reading and the display
  of diagnostics.
- `tests/`: the tests of the library.
