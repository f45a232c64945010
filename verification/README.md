# shortie

A small text expander: typing the name of a *short* (for example `;l3`)
replaces it with the short's content (`localhost:3000`). Contents may call
`{var NAME}`, `{embed PATH}` and `{now FORMAT}`.

## Layout

- `src/` — the verified library (Verus):
  - `tokenizer.rs` — reading a short's content into tokens, the error
    reports for calls that cannot be read;
  - `config.rs` — assembling the shorts of all configuration files into
    groups by prefix, with their variables;
  - `expand.rs` — resolving tokens into the text to type (variables,
    time formatting through chrono; embedded files are marked for the
    caller to read);
  - `input.rs` — the key-press state machine of the daemon;
  - `opts.rs` — options of the command-line tool;
  - `text.rs` — helpers on characters, strings and UTF-8 lengths.
- `app/` — the program around it: the `shortie` command (start, stop,
  reload, status), which starts itself with the hidden `daemon` subcommand
  as the daemon (keyboard listening with rdev, typing with enigo, reading
  YAML files with serde-saphyr).
- `tests/` — tests of the library.
