# sieve-form

A verified library for the Sieve email filtering language (RFC 5228) with
the variables extension (RFC 5229), written in Verus.

Scripts are read into a uniform *form* tree: every statement is a flat list
of forms, and nesting appears only as blocks and test lists.  `compile`
checks a script (UTF-8, tokens, statements, declared extensions,
comparators, `:regex` patterns) and compiles its regexes once; `evaluate`
runs it against a raw message and its SMTP envelope and returns the single
resulting action.

Layout of `src/`:

- `text.rs` — character classes, ASCII case mapping, trimming, decimals.
- `lexer.rs` — tokens and their positions.
- `form.rs` — forms, and the reader from tokens to a script.
- `message.rs` — header extraction and address handling.
- `regex.rs` — the use of `fancy-regex` (compiling, matching, escaping).
- `evaluator.rs` — the meaning of tests and statements, and their evaluation.
- `validate.rs` — the checks that `compile` makes, and the regex cache.
- `properties.rs` — properties of the library as a whole, proved.
- `lib.rs` — `compile`, `evaluate`, actions and compiled scripts.

Each executable function is proved against spec functions that state its
result; what `fancy-regex` and a few std functions compute is named, not
restated, and the trusted declarations say so where they stand.
