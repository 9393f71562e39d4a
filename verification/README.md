# csv_transform

Converts between delimited text (CSV, TSV, anything with a single-byte
delimiter) and JSON, with the conversion itself verified by Verus.

- `csv_to_json` parses a delimited string into an array of row objects (with a
  header row) or of arrays (without one). Cells stay strings, and short rows are
  padded with empty cells.
- `json_to_csv` serialises an array of objects or arrays, with quotes where they
  are needed. Without explicit columns, objects are written under the sorted
  union of their names.
- A JSON Pointer restricts a conversion to one part of a value; the rest is
  preserved. A conversion whose JSON text exceeds `max_output_bytes` is refused.

## Layout

| Module | Contents |
|---|---|
| `text` | decimal numerals, the order of strings |
| `tree` | the mathematical model of JSON documents and of paths in them |
| `document` | JSON documents, and the way from and to `serde_json` |
| `config` | the options of a call |
| `delimited` | what delimited text looks like, and the `csv` crate |
| `reading` | from delimited text to JSON |
| `writing` | from JSON to delimited text |
| `transform` | the transform with phases, pointer and size limit |
| `round_trip` | what survives being written and read back |
| `laws` | what holds of the library as a whole |

`app/` parses the options with `serde` and offers the transform over
`serde_json` values.

The functions marked `external_body` and the `assume_specification` items are
the trusted boundary: they call `csv`, `serde_json` and a few functions of the
standard library, and their doc comments say what is claimed of each.
