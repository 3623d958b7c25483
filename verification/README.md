# rust_json_parser

A JSON tokenizer and parser written in Verus: each function states what it
does in `requires`/`ensures`, and Verus proves the code against it.

## Layout

- `src/text.rs` — character classes (digits, white space, alphabetic),
  decimal numerals, string building, and byte offsets in UTF-8.
- `src/number.rs` — `JsonNumber`: a number kept as its exact canonical
  decimal; the JSON grammar of number literals (with exponents) and the range of
  `f64`; `parse_literal`, `to_literal`.
- `src/error.rs` — `JsonError` and its messages.
- `src/tokenizer.rs` — `Tokenizer`, `Token`, `tokenize`, and the step-by-step
  specification of the scan.
- `src/value.rs` — `JsonValue`, `JsonObject` (entries sorted by key, so that
  equal maps compare equal) and the accessors.
- `src/parser.rs` — `JsonParser`, `parse_json`, and the step-by-step
  specification of the parse.
- `app/` — a small command-line demo, the `f64` view of numbers, and the
  Python bindings (PyO3).

Positions in errors are byte offsets into the UTF-8 text of the input: where
the token, escape or literal at fault starts, or where the input ran out. A
JSON text is exactly one value: tokens after it are an error. Numbers hold no
floating point: `app/floats.rs` turns them into `f64`.
