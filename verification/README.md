# Glare

A keyboard-driven terminal viewer of the packages installed on an Arch Linux
system: every package with its details, its files grouped by install location,
its dependencies, filters (All, Explicit, Dependencies, AUR, Orphans, Recent,
Largest), a search by name or description, and a dashboard.

The library under `src/` is verified with Verus; `app/` is the program around
it (arguments, the configuration file, running pacman, the terminal).

## Layout

- `src/text.rs` — characters, lines, words, trimming, search within text,
  string order, decimal numbers.
- `src/size.rs` — reading sizes such as `5.86 MiB` into bytes and printing
  byte counts.
- `src/package.rs` — package records and grouping of a package's files by
  install location.
- `src/pacman.rs` — reading what `pacman -Qi`, `-Qm`, `-Qdtq` and `-Ql` print.
- `src/listing.rs` — which packages a filter and a search show, in which order.
- `src/app.rs` — the program state and what every key does to it.
- `src/view.rs` — the text of every part of the screen, piece by piece.
- `src/laws.rs` — properties that span several operations.
- `src/config.rs` — the settings and their defaults.

Each public function states its result in its `ensures`; the state machine of
`App::handle_key` is specified by `key_result` over `UiState`.
