# recall

A searchable terminal interface for shell aliases and functions. recall
discovers `alias name=value` lines and `name() { ... }` functions in shell
configuration files, merges them with a TOML configuration (overrides of
description, example and category, and static commands), and shows them by
category or by fuzzy search; the chosen command's name goes to the
clipboard.

Layout:

- `src/` — the library, written in Verus with its contracts and proofs:
  discovery of commands in configuration text, merging and sorting,
  fuzzy scoring, the interface state machine (keys to state and action),
  command-line reading, and the choice of clipboard tool.
- `app/` — the program around it: reading files and the environment,
  parsing TOML, drawing with ratatui, running the clipboard tool.
- `tests/` — tests of the library on concrete inputs.

Keys: `/` search, `j`/`k` or arrows move, `Tab`/`Shift+Tab` change category,
`Enter` copies, `q`/`Esc` quit (`Esc` leaves search), `Ctrl+C` quits.
