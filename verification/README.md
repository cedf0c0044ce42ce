# herdr-muster

An agent-aware project switcher for herdr. One keypress opens a fuzzy list: open
projects show their agent state with the blocked ones on top; dormant projects sit
below, one press from a fresh workspace. A project maps to one workspace: identity is
stored in a registry when muster creates the workspace.

## Layout

- `src/` — the verified library (Verus):
  - `model.rs` — agent states, rows, and the assembly and ordering of the switcher's rows,
    with the laws of that layout;
  - `registry.rs` — the directory → workspace registry, its invariant and laws;
  - `picker.rs` — fuzzy filtering (nucleo), list layout, row text and key handling;
  - `session.rs` — what each picker outcome leads to, and how the registry follows;
  - `sources.rs`, `config.rs` — candidate directories and configuration;
  - `herdr.rs` — workspace, agent and pane records, and the `Herdr` interface;
  - `order.rs` — stable insertion order and its properties; `text.rs`, `paths.rs` —
    string and path helpers, and the std/`dirs` calls behind them.
- `app/` — the binary: environment, files, the herdr CLI, JSON and TOML, the terminal UI.
- `tests/` — tests of the library.
