# whypkg

Why is this package here? A cross-distro package investigator (apt, pacman,
dnf, flatpak): an interactive browser and a grouped report of pending
upgrades, both answering what pulled each package in.

## Layout

- `src/` — the library, verified with Verus:
  - `text.rs`, `order.rs`, `seqs.rs`, `styled.rs`: text as character
    sequences, stable sorts, and styled lines as plain values.
  - `model.rs`: the `World` (packages, dependency graph, manual set,
    install log) and its invariant.
  - `engine.rs`: the shortest chain to a manually installed package,
    same-session installs, ages and sizes as text.
  - `backend/`: what apt/dpkg, dnf/rpm, pacman and flatpak print, turned
    into a `World`.
  - `commands/`: the `pending` report, the browser's pool, and `self`.
  - `tui/`: the browser's state, filters, keys and rows, and the graph
    view's neighbours and history.
- `app/` — the binary: command line, running the package managers,
  the clock, terminal drawing, and the dependency-graph canvas.
- `tests/` — tests of the library on concrete inputs.
