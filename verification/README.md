# neo4j-csv (verified)

A parser for Neo4j's annotated CSV import format, written in Verus.

- `src/text.rs`: whitespace, trimming and string building on characters.
- `src/error.rs`: `Neo4jCsvError` and the text of each error.
- `src/header.rs`: header rows to column descriptors (`parse_header`).
- `src/parse/`: CSV field splitting, record assembly, the line-by-line
  `Neo4jCsvStreamParser`, and the whole-input entry points.
- `src/laws.rs`: properties of the parser as a whole (CSV round trips,
  header shape, label cleanliness, one record per non-blank row, row
  counting, single record kind per file).
- `app/`: the error with `Display` through `thiserror`, and conversions of
  parsed records into `property-graph-model` records.
