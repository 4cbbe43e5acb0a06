# globlint

A validating parser, canonical printer and matcher for shell-style glob patterns
(`*`, `**`, `?`, `[...]`, `{a,b}`, `/`), written in Verus.

- `parse` turns a pattern into a `Glob`, or a `ParseError` with the zero-based position
  and message of the first problem (unterminated `[` or `{`, `**` mixed with other text in a
  path component, also where it fills an alternation branch, an empty path component, a
  backwards range, a dangling `\`, an empty alternation, a stray `]`, `}` or `,`).
  Redundant `**/**` chains are collapsed.
- `pretty_print` parses and writes the pattern back in canonical form: characters escaped
  where they would otherwise read differently, classes with `!` for negation, alternation
  branches sorted and deduplicated. Printing is idempotent and keeps the pattern's meaning.
- `Glob::matches` matches a path component by component; `Glob::matching_defined` says
  whether it has an answer for every path (it has none where it would reach a `/` or `**`
  inside an alternation).

## Layout

- `src/model.rs`: the public types and their mathematical model (`GlobSeg`).
- `src/grammar.rs`: the grammar, the validation rules and normalisation as spec functions.
- `src/parser.rs`: the parser, proved to compute exactly what the grammar says.
- `src/render.rs`, `src/canonical.rs`: the canonical printer and the ordering it sorts by.
- `src/semantics.rs`, `src/matcher.rs`: what matching means, and the matcher proved against it.
- `src/text.rs`: small string helpers.
- `src/wellformed.rs`, `src/meaning.rs`, `src/readback.rs`, `src/parsed.rs`, `src/language.rs`: supporting proofs.
- `src/laws.rs`: properties of the library as a whole, stated and proved as proof functions
  (what `**` matches, that normalising and printing keep a pattern's meaning, that printing
  is idempotent, that parsed patterns are valid and normal, and more).
- `app/main.rs`: the command-line tool around the library.
- `tests/`: the test suites.
