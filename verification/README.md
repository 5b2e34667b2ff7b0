# grab

A stream processor for delimited text: each input record is split into fields, the
fields are given names by a mapping such as `id,_,last,phones:2,_:g`, and each record is
written as a delimited line or as a JSON object.

The library under `src/` is written in Verus. Its functions carry contracts that Verus
proves, with one exception: the few small wrappers around standard-library and
`serde_json` calls (trimming, lower-casing, number parsing, UTF-8 checking, JSON string
encoding) are marked `external_body`, so their contracts are assumed, and each says in its
doc comment what it claims of the call it makes.

- `text` — character-level helpers: splitting, trimming, decimal numbers, and the small
  set of standard-library string operations the library relies on.
- `types` — the input delimiter setting (`,`, `;`, ..., or `whitespace`).
- `cli` — the command-line settings as plain values, and the writer buffer size
  (`512K`, `1M`, ...), with the law that a displayed size reads back as itself.
- `options` — the mapping language, the options built from the settings, their
  validation (first error wins, mapping before selection), and which mappings are written.
- `json` — JSON strings, arrays and object members.
- `json_read` — how JSON text is read back, and the laws that what the writers write reads
  back as the values it was written from.
- `process` — the column-count rules, turning one record into one output line, the
  steps of the reading loop (skip/take, and what is reported on which line), and the
  laws that tie them together.
- `tokenizer` — assembling quote-aware lines (with the law that the lines of an input,
  put back together, are the input), splitting them at whitespace, and the UTF-8 check of
  fields.

`app/` holds the command-line program: argument parsing with `clap`, error messages
with `thiserror`, reading input (files, standard input, the `csv` reader), and the
loop that feeds records to the library and writes its output.
