# eldenring

A verified model of parts of Elden Ring's in-memory structures.

- `src/cs/msg.rs`: the message repository and its FMG message files. A
  message file is held as its byte image (header, group records, offset table,
  UTF-16 texts). Looking up a message id is a binary search over the groups;
  its contracts state the exact search and, for sorted groups, that an id is
  found exactly when a group holds it. Messages can be read and overwritten in
  place; the proofs show that a write keeps the image's shape and that a
  message then reads what was written, when the write lands past the file's
  own tables.
- `src/version.rs`: the game build, decided from the values of the version
  resource of its module (product version, translations and strings).
- `src/bytes.rs`: little-endian integers in byte images.
- `src/cs/remo.rs`, `src/cs/file/tpf.rs`: layouts with no logic.
- `app/`: copies between the running game's memory and the library's images,
  reading the version resource with `pelite`, and layouts that only raw
  pointers read.

`src/` is checked by Verus; `tests/` runs the library on concrete images.
