# prune_source

A verified pruner of Python source for static API analysis. It lexes the source with Ruff and
replaces every function implementation suite with `pass`, keeping signatures, decorators,
docstrings, class bodies and the implementations of class `__init__` methods, and keeping the
physical line layout of the source.

- `src/` is the library, verified with Verus: the token pass (`header`, `body`, `collector`),
  the rewriting of the source (`edits`, `text`), the proof that the edits of a well-shaped token
  stream always apply (`fitting`), the calls into Ruff (`lexing`) and `prune`.
- `tests/` runs the library on Python snippets.
- `app/` is the Python extension module built with PyO3.

The tokens come from `ruff_python_parser::parse_unchecked`, which parses the whole module and
keeps the lexer's token stream, comments included. The released parser crates keep the
lexer's `current_range` and `current_flags` private, so a bare lexing pass cannot read token
ranges; parsing costs a syntax tree that the pruner does not use. The parser crates are
taken at 0.0.5, the last release that builds with the toolchain here, and `get-size2` is held
at 0.10.0 because its later patch releases pull in a `compact_str` that 0.0.5 does not build
against.
