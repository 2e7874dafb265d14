# grex

A verified library for the grex format: XML flattened into one line per attribute
and per text-only element, each line an element path, ` = `, and the escaped value.
`grex` flattens a document (`grex_document`), and `ungrex` rebuilds one from lines.

Layout:

- `src/text.rs`: value escaping, XML entity escaping, whitespace, decimal numbers.
- `src/line.rs`: splitting text into lines and reading one `xpath = value` line.
- `src/xpath.rs`: reading element paths into steps.
- `src/document.rs`: the document as a vector of nodes, with its model.
- `src/grex.rs`: flattening.
- `src/ungrex.rs`: rebuilding, with the path cache.
- `src/resolve.rs`: which element a path names, the laws that keep the path cache
  and each applied line true to it, and that of merged texts the last write wins.
- `src/roundtrip.rs`: the laws that tie the two directions together (round trip,
  merge by concatenation, path reading).
- `app/main.rs`: the command-line tool, which reads and writes XML through libxml.
