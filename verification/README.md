# sqlite

A small SQLite-style database with its logic verified in Verus.

Two storage layers share the crate:

- a single-table row store (`btree`, `sql`, `storage`, `row`, `repl`): fixed-width rows
  of `(id, username, email)` kept in B-tree leaf pages behind a page cache, with a tiny
  SQL dialect (`insert ID USER EMAIL`, `select`) and the `.exit`, `.btree` and
  `.constants` meta-commands;
- a key/value engine (`engine`): a B-tree of `u64` keys and values over a page file
  whose first page names the root, with leaf and internal splits.

Both work on in-memory file images: `app/` reads the database file, runs the interactive
loop, and writes the image back.

## Layout

- `src/storage`: byte codecs, pages, and the page cache over a file image.
- `src/btree`: node layouts, search, leaf insertion, cursors, and root promotion.
- `src/row.rs`: the row format and its round trip.
- `src/sql`: statements, the parser, and the executor (with the insert-then-scan law).
- `src/repl.rs`: meta-commands and the lines the loop prints.
- `src/engine`: the key/value engine: the page file, node encoding, the tree invariant,
  insertion with splits, the consistency check for images read from disk, and the
  persistence law.
- `src/text.rs` and the `Io` variant in `src/error.rs`: decimal rendering, and the calls
  into the standard library whose behaviour is assumed, each stated in its contract.
- `tests/`: scenario tests.
- `app/`: the command-line program.
