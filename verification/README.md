# struson

A streaming JSON reader, verified with Verus.

The reader performs no input itself. It is handed the data piece by piece, and an operation for
which the data does not suffice stops and is continued once more data is there. What an operation
returns does not depend on how the data was divided into pieces.

- `src/reader.rs` and `src/reader/`: the reader and its operations
- `src/scanner.rs`, `src/buffer.rs`, `src/chars.rs`, `src/number.rs`, `src/utf8.rs`: processing of
  the bytes of a document
- `src/model.rs`, `src/traversal.rs`, `src/operations.rs`, `src/scan.rs`, `src/lookahead.rs`,
  `src/token.rs`, `src/usage.rs`: what the operations mean, as functions on the state of the reader
- `src/validity.rs`, `src/frame.rs`, `src/chunks.rs`, `src/chunking.rs`: what all operations keep,
  and their independence of how the data is divided
- `src/error.rs`, `src/position.rs`, `src/describe.rs`, `src/snapshot.rs`: errors, positions and
  their descriptions
- `src/laws/`: properties of the reader as a whole, for example that exactly the JSON documents are
  accepted, and that each one is read as the value which it represents
- `app/`: an asynchronous reader on top of the library
