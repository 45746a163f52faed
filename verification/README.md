# monotask

The logic of a local-first, peer-to-peer task board, verified with Verus:
board documents with cards, comments and custom fields, a hybrid logical
clock, the email-to-CRM sync rules, the sync protocol's framing, handshake
and event loop, the storage indexes and the command-line parsers.

Layout:

- `src/` — the verified library.
  - `text.rs` — string building, searching, trimming and number formatting.
  - `board.rs` — the board document model (maps of cards, comments, field
    definitions) and its well-formedness.
  - `clock.rs` — the hybrid logical clock.
  - `field.rs` — custom field definitions, validation and card values.
  - `comment.rs` — card comments.
  - `mail.rs` — mail configuration, OAuth helpers, message parsing and the
    contact/email sync (`sync_contacts`), with its laws.
  - `net.rs` — protocol constants, frames, handshake, LAN announcements,
    saved peers, and the state machines of the swarm, of serving a
    connection and of syncing one board.
  - `storage.rs` — the card-number and custom-field indexes and field queries.
  - `cli.rs` — argument parsers and small decisions of the command line.
- `tests/` — tests of the library.
- `app/` — the program around it: the automerge document conversion, the
  SQLite store, HTTP mail clients, OAuth callback, LAN discovery and `main`.
