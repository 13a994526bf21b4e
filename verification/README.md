# qurli

A keyboard-driven terminal HTTP client. The crate is split in two:

- `src/` is the verified library (Verus): `{{name}}` substitution of runtime
  variables, JSON extraction rules (`name = $.path`), header parsing and
  request preparation, curl command generation, history redaction, and the
  key-driven state machine of the interface, each with its contract.
  `src/json.rs` models JSON values and reads serde_json's compact text into
  that model; `src/text.rs` and `src/order.rs` hold the text operations and
  the order of names that the rest builds on.
- `app/` is the program around it: the terminal (crossterm, ratatui,
  tui-textarea), sending requests (reqwest, tokio), the clipboard (arboard)
  and the history file (serde_json, dirs). It hands keys to `App::handle_key`
  and performs the action that comes back.

The tests under `tests/` run the library with the real outside crates.
