# mc — the MetaCatalog YAML reader, verified

MetaCatalog keeps its catalog as YAML under `catalog/**`. This crate is the
reader for the subset of YAML that format uses; every node it produces carries
the source line it came from, so that validation can point at the exact key
that is wrong.

The library is written in Verus and proved against its specification:

- `src/yaml/text.rs` — characters of a `str`, Unicode whitespace, decimal
  numerals, and the `std::path` types carried by errors.
- `src/yaml/error.rs` — `ErrorKind`, `ParseError` and how a failure is shown.
- `src/yaml/scan.rs` — the line pre-pass (blank and comment lines dropped
  without renumbering, tabs in indentation refused) and the character scans
  over one line (quoted scalars, comments, key separators, unsupported
  constructs).
- `src/yaml/scalar.rs` — typing of plain scalars and decoding of quoted ones.
- `src/yaml/parser.rs` — the recursive descent over significant lines, with
  its specification as functions over line views.
- `src/yaml/tree.rs` — `Node`, `Value`, `Key`, their views and accessors.
- `src/yaml/laws.rs` — properties of the reader as a whole: every node carries
  a line of the text, no mapping repeats a key and its keys follow the lines,
  failures name a line, a comment after a line's content (whose quotes close)
  or in place of a blank line changes nothing, an inserted blank or comment
  line only renumbers the lines after it, reading always moves past the line
  it starts on, significant lines are trimmed prefixes of their lines, keys end
  at the first separating `:`, integers and quoted strings read back (a
  single-quoted scalar as its slice with `''` read once), and a text's UTF-8
  bytes read as the text.
- `src/yaml.rs` — `parse_str`, whose contract is `parsed_text`, and
  `parse_bytes`, which decodes a file's bytes first (`parsed_bytes`).
- `src/dump.rs` — the layout of a tree dump: one row per key or item, with its
  source line, depth and leading text (`dump_rows`, against `tree_rows`).

A float scalar is kept as the text it was written as (`Value::Float(String)`);
turning it into an `f64` is left to the caller.

`app/main.rs` is the `mc` binary: it reads files from disk, hands their bytes
to `parse_bytes`, and prints the rows of `dump_rows`, line numbers in the left
column; it renders the scalar that ends a row itself.
