# plutil_rs

Apple property lists in verified Rust (Verus): the value model, the binary
`bplist00` format, the XML format, and the logic of a small `plutil` tool.

## Layout

- `src/value.rs` — `Value` and its mathematical model `SpecValue`.
- `src/bplist/` — the binary format: `parser.rs` (exact contract against
  `spec_parse`), `writer.rs` (exact contract against `spec_write`),
  `layout.rs` (the flattened object layout), `roundtrip.rs` (parsing what
  the writer writes gives the value back).
- `src/xplist/` — the XML format: `date.rs` (ISO 8601 and the Apple epoch,
  with the calendar and text round trips), `writer.rs`, `parser.rs` (a state
  machine over the events of `quick_xml`), `roundtrip.rs` (parsing the events
  of a written document gives the value back).
- `src/plutil.rs` — format detection, key paths, type names, the `-p`
  pretty-printer, and each operation's computation on a file's bytes.
- `src/display.rs`, `src/text.rs`, `src/unicode.rs`, `src/float_bits.rs`,
  `src/reals.rs` — renderings, decimal text, UTF-16, binary64 bit patterns,
  and the caller-supplied real-number text functions.
- `app/` — the `plutil` command line: argument parsing, file and console
  I/O, error messages, and the binary64 text conversions.
- `tests/` — tests on concrete values.

Reals and dates are held as binary64 bit patterns; turning them into decimal
text and back is done by functions that the caller passes in.
