# astatine

The library of the astatine compiler, verified with Verus.

- `src/lexer.rs` turns source text into tokens. The spec function `lex` states
  what tokenizing yields for every input; `Lexer::tokenize` and `Lexer::scan`
  are proved to compute it.
- `src/lexer_laws.rs` proves properties of `lex`: the shape of every token, how
  many tokens and which error lines there can be, that tokenizing stops early
  only at a character that cannot start a token, that blanks between tokens
  change nothing, and that a line break before the input changes nothing but
  the error line.
- `src/parser.rs` reads the nodes of a program from its tokens.
- `src/symbols.rs` holds the symbol and type tables, whose maps always point
  at the last definition of each name.
- `src/generator.rs` collects a program's symbols and builds its assembly text.
- `src/syntax.rs` holds operators, keywords and definitions; `src/cli.rs` the
  command-line arguments and the name of the output files; `src/text.rs` small
  string helpers, among them the few calls into std that are trusted.
- `app/` is the command-line compiler: it reads the file, reports errors and
  runs `nasm` and `ld`.
