# kartei

A keyboard-driven editor for contacts stored as vCard files in a local
vdir (a directory of `.vcf` files, or one `.vcf` bundle such as Thunderbird
exports), with the logic proved correct in Verus.

## Layout

- `src/` — the verified library.
  - `card/` — content lines (`line.rs`: unfolding, folding, escaping,
    splitting a line into group, name, parameters and value), labels
    (`label.rs`), birthdays (`bday.rs`) and cards (`mod.rs`: reading,
    writing back byte for byte, reading and setting fields so that only the
    field's own line changes).
  - `vdir.rs` — cutting a file into one chunk per card, reading an address
    book from its files' bytes, line endings, appending to a bundle.
  - `search.rs` — ranking cards against a query (fuzzy matching through
    `nucleo-matcher`, phone numbers by their digits) and the list's sort key.
  - `order.rs` — text ordering and a stable sort by text keys.
  - `query.rs` — the address completion lines for mail clients.
  - `input.rs`, `form.rs`, `key.rs` — the text inputs and the edit form.
  - `app.rs` — the application state, what each key does to it, and how a
    change of the address book on disk is taken in.
  - `view.rs` — the lines the screen shows of a card and of skipped files.
  - `osc52.rs` — base64 and the OSC 52 clipboard escape sequence.
  - `text.rs` — text helpers shared by the modules.
- `app/` — the program around the library: command line (`clap`), the
  terminal (`ratatui`), reading and writing files (with the conflict check
  before a save), and the file watcher (`notify-debouncer-full`).
  `editor.rs` (opening a card's bytes in `$VISUAL` or `$EDITOR`) and
  `disk::remove` are kept for raw edits and deletion, which no key offers
  yet, so nothing calls them.
- `tests/` — tests of the library.

The contracts are stated over mathematical models (sequences of characters
and bytes); the laws the library keeps (a card written back is the bytes it
was read from, a value set into a field reads back, setting a field touches
only its line, chunks of a file concatenate to the file, and more) are proof
functions next to the code they are about.
