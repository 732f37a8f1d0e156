# utils: YPBank statements

A library that reads, writes, converts and compares bank statements in the
three YPBank formats (a `KEY: VALUE` text format, CSV, and a binary record
format), with its behaviour stated in contracts and proved with Verus, and the
two command-line tools built on it (a converter and a comparer).

## Layout

- `src/formats/data.rs`: operations, the order on them (every field but the
  description), and statements, which keep their operations sorted.
- `src/formats/errors.rs`: the errors and their messages.
- `src/formats/ypbank/txt.rs`, `csv.rs`, `bin.rs`: one reader and one writer
  per format; the reader's contract is a step function over the input.
- `src/formats/ypbank/fields.rs`, `text.rs`: field values, characters, lines
  and decimal numbers shared by the text formats.
- `src/cli.rs`, `src/cli/`: format names and help texts of the tools, reading
  and writing whole statements, and the comparer's verdict.
- `app/`: the programs themselves: arguments, files, standard streams.
- `tests/`: tests of the library.

## What is proved

Besides the contract of each function: the order on operations is a total
order up to descriptions; a record written in any format reads back as the
same operation (with its description as the format keeps it); a whole
statement written in any format reads back as a statement that the comparer
finds identical; and two statements that hold the same operations in any
order compare identical.
