# skald

A YAML 1.2.2 toolkit in verified Rust: a scanner, a parser, a composer, an emitter, a
lossless concrete syntax tree with edits, JSON-Schema validation and coercion, a
formatter, and the cores of a language server and an MCP server.

Every function of the library is proved against its contract with Verus, but for those
listed under "Trusted". The contracts
speak of mathematical models: the state of the scanner (`scanner::model`), of the parser
(`parser::model`) and of the emitter (`emitter::sink`) as values, and what each step
makes of them; the tree of a document (`cst::green`), and the leaves of a source text
(`cst::tape`).

## Layout

- `src/scanner/`: bytes to tokens. `model` says what is computed; `stream`, `neutral`,
  `sequence` and `size` say what holds of whole inputs (spans tile the input; trivia
  changes no token; tokens come in order; the size is limited), `chomp` what holds of
  block scalars.
- `src/parser/`: tokens to events. `balance` says that events are balanced, that mappings
  hold pairs and documents one root; `progress` that parsing ends.
- `src/composer.rs`, `src/node.rs`: events to trees of nodes.
- `src/emitter/`: nodes to text. `roundtrip` says that quoted texts are scanned back to
  what was written, `lines` that documents end with a line feed.
- `src/readback/`: what the emitter writes, the composer reads back. The proof follows a
  node from its text over tokens and events to the node that is composed; the law is
  `readback::compose::law_emission_is_read_back`.
- `src/cst/`: the lossless tree, paths into it, edits and reformatting, which trims only
  where the documents stay what they are.
- `src/schema/`: schemas, validation, coercion and defaults.
- `src/fmt.rs`, `src/lsp.rs`, `src/mcp.rs`, `src/json.rs`: the formatter and the protocol
  servers, without their input and output.
- `src/fixtures.rs`: documents to measure with.
- `app/`: the programs around the library.
- `tests/`: tests.

## Trusted

What the library takes from std and from `serde_json` without a proof:

- `text`: `String::push`
- `scanner::quoted`: `char::from_u32`
- `schema::validate`: `debug_string`, the `Debug` format of a text, named `debug_text`
- `json`: `quote`, a string in JSON notation; `parse_json` and `parse_json_bytes`, what
  `serde_json` parses, named `json_parsed` and `json_parsed_bytes`; `adopt`, which takes
  over the parsed `serde_json::Value`, and the declaration of that type

## Limits

Inputs are at most `scanner::cursor::MAX_INPUT` bytes long: positions count lines and
columns in 32 bits.

The library computes with no floating-point numbers. Where a schema bounds a number, the
caller says what texts denote as numbers (`schema::validate::Number`).
