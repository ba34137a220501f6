# tergo

A formatter for R code, written in Verus: the tokenizer, the parser and the
pretty printer are proved against specifications of what they do.

## Layout

- `src/lexer_spec.rs`, `src/tokenizer.rs`, `src/tokens.rs`: the tokens of R and
  the tokenizer, proved to produce the tokens that `lex` specifies.
- `src/pre_parsing_hooks.rs`: comments squeezed into the tokens that follow or
  precede them.
- `src/grammar.rs`, `src/ast.rs`, `src/parser.rs`: the grammar as spec
  functions giving concrete syntax trees, the syntax tree, and the parser,
  proved to build the tree that the grammar gives.
- `src/format.rs`, `src/code.rs`, `src/formatter.rs`: documents, the layout
  algorithm (proved against `layout`), and the documents of the syntax tree.
- `src/token_texts.rs`, `src/tree_tokens.rs`: what formatting and parsing keep
  of the program's tokens and comments.
- `src/lib.rs`: `tergo_format`, from source text to formatted text.
- `app/`: the `tergo` command, which reads a configuration file and formats the
  R files under a path in place.
