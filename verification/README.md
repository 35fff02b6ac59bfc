# uri-template-system-core

Parsing and expansion of URI Templates (RFC 6570, up to and including
Level 4), written in Verus: the behaviour of the library is stated in
contracts over a mathematical model of templates and values, and Verus
proves the code against them.

```rust
use uri_template_system_core::{Template, Value, Values};

let template = Template::parse("hello/{name}!").unwrap();
let values = Values::default().add("name", Value::item("world"));
assert_eq!("hello/world!", template.expand(&values).unwrap());
```

## Layout

- `src/template.rs`: the model of a template (literals and expressions).
- `src/template/parse.rs`: the grammar as spec functions, the parser proved
  against it, and its properties (parsed templates are well formed, and
  written back out give the input again).
- `src/template/expand.rs`: the expansion rules of RFC 6570 as spec
  functions, the expander proved against them, and its properties (only the
  named variables matter, undefined expressions expand to nothing, every
  expansion is made of URI characters).
- `src/value.rs`: variable values, and the map of values by name.
- `src/string/`: character classes, satisfiers (recognisers of runs of
  characters), percent-encoding and UTF-8 helpers.
- `src/codec.rs`: a character-at-a-time percent-encoder, proved to agree with
  the encoding used by expansion, and percent-decoding, proved to undo it.
- `app/`: error types with `Display` and `std::error::Error`, and a
  `Display` view of an expansion.
- `tests/`: the examples of RFC 6570 and tests of each part.
