# tagua_literals

Recognizers for the literals of PHP: `null`, booleans, integers in binary, octal, decimal and
hexadecimal notation, exponential numbers, strings (quoted and nowdoc) and identifiers. Each
recognizer is a function on bytes whose result is stated exactly, in Verus, by a spec function
over the input's byte sequence.

- `src/result.rs`: the result, error and `Needed` types and their models.
- `src/lexeme.rs`: byte classes, longest runs, fixed tags and digit-run values.
- `src/numbers.rs`: keywords and numbers; `src/identifier.rs`: identifiers.
- `src/strings.rs`: quoted strings and nowdocs, decoded as UTF-8.
- `src/laws.rs`: properties of all recognizers: progress, read-back of numbers, quoted
  strings and nowdocs, and a direct characterization of quoted strings.
- `app/lib.rs`: the same recognizers with `nom`'s result types; the value of an exponential
  number is read there as an `f64`.
