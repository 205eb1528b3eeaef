# serverbrowser

A terminal web browser on the Servo engine, with qutebrowser-style keyboard
navigation and a bookmark manager kept as an Obsidian-like vault of Markdown
nodes. The logic is written in Verus and proved against its contracts.

## Layout

- `src/` — the verified library.
  - `text.rs`: character-level helpers (trimming, splitting, number parsing,
    decimal output, string order) with their specifications.
  - `config.rs`: output mode, key bindings by mode, the default bindings and
    the default configuration.
  - `nav.rs`: `:` command parsing, keybinding tokens, and the prefix-matching
    keymap (`g` waits for `gg`).
  - `mindmap.rs`: nodes, slugs, the Markdown node format (writer and reader),
    the ordered node map, search, edges and children, and the map side of
    loading a vault and adding a bookmark.
  - `markdown_roundtrip.rs`: the proof that reading a written node gives it
    back.
  - `output.rs`: base64, and the kitty, sixel and half-block encoders.
  - `page.rs`: which text is a loadable URL (`url::Url::parse`).
  - `cli.rs`: the decisions of the command-line front end.
- `app/` — the program: arguments, environment, files, the TOML config file,
  the terminal, and the Servo engine.
- `tests/` — tests of the library.

## Collections

The node map (`NodeMap`) and the key bindings by mode (`Keybindings`) are
vectors kept in key order, and the edge list and the sixel palette are
built in vectors without repeats. vstd specifies `BTreeMap`, `BTreeSet` and
the hash collections only for key types whose ordering or hashing it
specifies; `String` keys and tuple colours are not among them, so their
contents could not be reasoned about through those specifications.
