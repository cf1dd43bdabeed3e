# richclip

A clipboard history manager for Wayland. The unit of history is a grouped item:
one stable id that holds every MIME representation of a selection.

The rules of richclip are a library whose behaviour is stated in contracts and
proved with Verus. The programs around it do the input and output.

## Layout

- `src/` is the verified library.
  - `store/` holds items, formats and content-addressed blobs as tables, with a
    journal of what changed; `store/laws.rs` states what holds across
    operations.
  - `filter.rs` and `capture.rs` decide what of a selection is captured,
    `restore.rs` what is advertised and served again.
  - `ipc.rs` and `daemon.rs` answer requests and tell watchers of changes.
  - `cli.rs` reads the arguments of commands and renders what they print.
  - `thumbnail.rs` makes previews of image items.
  - `labeld/` is the image labeller: configuration, requests, retries.
- `tests/` runs the library.
- `app/` holds the three programs: `richclip`, `richclipd` and
  `richclip-labeld`. They keep the store in SQLite and blob files, talk over a
  Unix socket, and speak to the compositor and to the labelling endpoint. An
  operation of the library runs on the stored rows inside a transaction, and its
  journal is then applied to the database and the blob directory.

## What is trusted

Calls into other crates stand behind small functions marked
`#[verifier::external_body]`. The comment above each names the function it calls
and what is taken for granted of it. Results that take pages to state (a hash, a
decoded image, a parsed URL) are named by a specification function without a
body, and the contracts speak of that name.
