# struson

A streaming JSON reader whose behaviour is stated in contracts and proved with
[Verus](https://github.com/verus-lang/verus).

The reader pulls JSON data token by token, reports exact error locations (line, column, byte
position and JSON path), and can be customized: comments, trailing commas, several top-level
values, a nesting limit and a restriction of numbers.

The library performs no input or output. An operation which cannot be completed with the input
received so far answers `Step::NeedInput`; the caller supplies more input with `prepare_fill`
and `fill_buffer` and calls the same operation again. How the input is cut into chunks has no
effect on the results, which is one of the proved laws.

## Layout

| Path | Content |
|------|---------|
| `src/reader.rs`, `src/reader/` | `JsonStreamReader` and its operations |
| `src/string_reader.rs` | reading a string value piecewise |
| `src/buffer.rs` | the input buffer, and values which are served from it in place |
| `src/chars.rs`, `src/text.rs`, `src/space.rs`, `src/token.rs`, `src/number.rs` | recognizing characters, strings, whitespace and comments, tokens and numbers |
| `src/types.rs`, `src/usage.rs`, `src/preview.rs` | data types, incorrect usage, debug output |
| `src/model.rs` | what each operation means: a function from a state to an outcome |
| `src/resume.rs` | an operation which is taken up again leads to the same outcome |
| `src/laws.rs`, `src/parts.rs`, `src/position.rs`, `src/restriction.rs`, `src/session.rs`, `src/tracking.rs`, `src/writing.rs` | what holds of the reader as a whole |
| `src/grammar.rs` | the grammar of the accepted documents |
| `tests/` | tests on concrete documents |
| `app/` | the reader over an asynchronous source of bytes |

## Contracts

The contract of an operation says which outcome of the model it has. `reader::resolves` is the
common form: a result or an error is the one of the model and leaves the reader in the state of
the model; `Step::NeedInput` is only answered where the available input does not decide the
outcome, and the reader then stands directly in front of the undecided input. An error of the
source gives the operation up.

Two functions of the standard library are trusted, the conversions from valid UTF-8 bytes to
`str` and to `String` in `src/buffer.rs`.
