# windowflow

WindowFlow is a desktop window manager for Windows: it moves windows between monitors,
records which windows the user focuses, and recommends groups of windows that are used
together. This crate is its core, written in Verus: every function in `src/` carries a
contract that Verus proves.

## Layout

- `src/` — the verified library.
  - `types.rs`, `errors.rs`, `responses.rs`: the data and errors of the application.
  - `recommendation.rs`: dwell times per window and co-occurrence counts of applications.
  - `engine.rs`: the recommendation engine (window groups, frequent switchers, effective
    dwell time, the recommendation lists) and its stored rows.
  - `algorithms.rs`: Apriori frequent itemsets, PrefixSpan sequential patterns and the
    prediction of the next application.
  - `monitor.rs`: the recorded focus and mouse events, with their caps and cleanup.
  - `platform.rs`: which windows may be moved, where a moved window goes, the order of the
    ways of moving it, and the reports of batch moves.
  - `queries.rs`, `online.rs`: usage figures, and the prompt and answer of the online model.
  - `hotkey.rs`, `panel.rs`, `thumbnail.rs`, `crypto.rs`: shortcuts and side buttons, the
    monitor badge, the thumbnail cache, title hashes and database keys.
  - `text.rs`, `words.rs`, `digits.rs`, `order.rs`: strings, word lists, decimal and
    hexadecimal text, and stable descending sorts.
- `tests/` — tests of the library on concrete values.
- `app/` — the application around the library: the Tauri shell and commands, the Win32
  calls, the SQLite store, the key store, the thumbnail files and the online model client.

Calls into other crates that the library makes (SHA-256, base64, PNG, random bytes, chrono,
Unicode lowercase) go through a few small trusted wrappers whose contracts are stated in
their doc comments.
