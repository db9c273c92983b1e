# asmjson

A JSON parser that looks at 64 bytes at a time.  A chunk is classified with bit tricks on
ordinary 64-bit words; whitespace runs, string bodies and numbers are then skipped in one
operation each.  The parser reports events to a writer.  Two writers come with it:

- `parse_to_dom` writes a flat tape of tokens in which every object and array knows where
  it ends;
- `parse_json` builds a tree.

`parse_with` drives a writer of your own, and `JsonRef` reads tapes and trees alike.

## What is accepted

JSON, with nesting up to 64, and a little more: every byte up to `0x20` counts as
whitespace between tokens, and control characters may stand in strings unescaped.
`src/spelling.rs` says exactly which texts those are.

## Layout

| where | what |
|-------|------|
| `src/grammar.rs`, `src/spelling.rs`, `src/json.rs` | what JSON texts are and what they mean |
| `src/classify.rs`, `src/machine.rs`, `src/parse.rs`, `src/stats.rs` | the parser |
| `src/number.rs`, `src/unescape.rs`, `src/text.rs` | numbers, escape sequences, slices |
| `src/sax.rs`, `src/tape.rs`, `src/dom.rs`, `src/value.rs` | the writers |
| `src/json_ref.rs`, `src/cursor.rs`, `src/de.rs`, `src/show.rs` | reading what was parsed |
| `src/capacity.rs` | room for a parser with a tape of fixed size |
| `src/laws.rs` | what holds of the library as a whole |
| `app/` | serde, floating point, iterators, process-wide counters, assembly bindings |

Everything in `src/` is verified with Verus.  Taken on trust are a few functions of
std; what is claimed of them stands at the top of `src/text.rs` and of `src/show.rs`.
