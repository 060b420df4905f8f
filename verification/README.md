# database

A small paged key-value database with a PostgreSQL wire-protocol front end,
written in Verus: the library under `src/` is verified, and `app/` holds the
server around it (sockets, files, the console, and the on-disk encoding of
pages).

Layout of `src/`:

- `query/` — the SQL lexer and recursive-descent parser, the server's
  `GET`/`SET`/`DEL` command language, and the two consoles' commands.
- `store/` — the B+ tree over an in-memory pager (`bptree`, `removal`,
  `validate`), the store with its key rules (`db`), row layouts (`schema`),
  the catalog's built-in tables, and the slotted page formats (`pages/`).
- `tcp/` — decoding a client's startup and request messages, encoding the
  server's messages, and the replies to a session and a command.
- `errors.rs` — the error kinds of each layer.

The pager keeps every page in memory and marks those an operation changes;
after each operation that changes the store, `app/` writes those pages and
the database header back to the file (`Pager::take_dirty` hands them out),
and on shutdown it writes every page.

Each function's contract states what it returns; the laws that relate
several functions (reads after writes, decoding what was encoded, headers
that read back as written, the check passing on a balanced tree) are public
proof functions beside them. The tree's insert and remove state that they
keep every node within the key counts that the order sets, where the order
is odd (an even order leaves a split branch one key short).
