# allmux

A picker for tmux: it lists tmux sessions and project directories, SSH hosts and
Docker containers, filters them with a fuzzy query ranked by how often and how
recently each was opened, and opens the chosen one in a tmux session.

## Layout

- `src/` is the library, verified with Verus:
  - `text.rs`: string helpers with exact contracts (trimming, lines, words,
    splitting, decimal numbers, lexicographic order, sorting).
  - `model.rs`: the entries (tmux, SSH, Docker), their search fields and history keys.
  - `parser.rs`: reading `~/.ssh/config`, `docker ps` output, tmux directories and
    sessions, permission strings and directory listings.
  - `history.rs`: the access history, its thirty-day window and 128-access cap,
    and its tab-separated text form.
  - `search.rs`: fuzzy matching through `fuzzy-matcher` and the listing order.
  - `tmux.rs`: the tmux steps that open an entry.
  - `ui.rs`: the picker's state, the keymap, the list window arithmetic, and what
    each list line and the preview pane show.
- `app/` is the program around it: reading files and directories, running `tmux`
  and `docker`, the clock, the terminal UI, and the frecency score, which is
  floating point.
- `tests/` runs the library on concrete inputs.
