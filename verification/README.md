# michelledb

A small document database with lucene-like filters: documents are JSON
objects, each scalar member is indexed under its `path=value`, and queries
such as `name:Ogechi age:<50` select documents through the index, or by a
scan of all documents.

- `src/` is the verified library: the query lexer and parser, the document
  model (members kept in ascending order of their names), path values, term
  matching, the index texts and the selection of documents by equality
  terms, the final choice of the documents a search returns, reading a
  stored document from its JSON text and writing one (through `serde_json`),
  the database's file names and document ids.
- `app/` is the HTTP server around it: routes, file reads and writes, the
  JSON of requests and responses, and the floating-point comparisons of
  numbers.
- `tests/` runs the library on concrete queries and documents.

Re-indexing all stored documents at start-up is switched on by setting the
environment variable `MICHELLEDB_REINDEX`.
