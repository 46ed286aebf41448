# padd

A formatter generator: a specification describes a language's tokens (as a compressed
deterministic finite automaton), its grammar, and how each production is laid out; the library
turns a specification into a lexer automaton, a grammar and a formatter, and formats text of
that language with them.

## Layout

- `src/` — the library, verified with Verus.
  - `data/` — interval map (an AVL tree with its balance bound), binary search tree, map,
    transition trie, and shared input streams.
  - `lex/` — the alphabet, the encoded CDFA and its builders, and the longest-match lexer.
  - `parse/` — grammars and their builders, and the Earley parser.
  - `fmt/` — formatting patterns (their language and generation) and the formatter, whose
    output is stated by `Formatter::formatted`.
  - `spec/` — the specification language: its lexer and grammar, regions, and the generation of
    an automaton, a grammar and a formatter from a parsed specification.
  - `runner.rs` — the pipeline: build a runner from a specification's text, then format text
    with it (lex, parse, format).
  - `tracker.rs`, `thread_pool.rs`, `formatter.rs` — the decisions of the command-line tool:
    when a file must be formatted again, how jobs go to workers, and the counts of a run.
- `tests/` — the tests, run against the compiled library.
- `app/` — the command-line side: configuration file, file walking and writing, tracking files
  on disk, console messages and the worker threads.
