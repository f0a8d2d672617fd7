# int_vault

The vault model behind a local-first markdown knowledge base: a vault is a
plain folder of `.md` files, and this library gives it structure —
frontmatter, wikilinks and markdown links, backlinks, tags, search, a link
graph — plus the decisions of the desktop app and the agent server built on
it. Everything in `src/` is verified with Verus: each public function states
what it returns in its contract, and the laws the library promises are
proof functions.

## Layout

- `src/` — the verified library.
  - `text`, `paths`, `sorting`, `numbers`: characters, path pieces, string order, number literals.
  - `yaml`, `frontmatter`, `fences`: the frontmatter subset, its parser and writer, and why a
    composed note splits back apart.
  - `links`, `note`: scanning a note body; a parsed note.
  - `index`, `search`, `graph`: link resolution, backlinks, tags, rewrites after a move,
    search, the vault graph and change reports.
  - `vault`, `error`: path validation against the vault root, and the text of every write.
  - `edit`, `tools`, `workspace`, `cli`: what the agent-facing tools compute, which vault a call
    means, and the server's command line.
  - `app_state`, `git_sync`, `menu`: the state shared with the desktop app, the Git sync
    state machine, the menu bar (sections, items, shortcuts, Open Recent).
- `tests/` — tests of the library, run against the compiled crate.
- `app/` — the unverified shell: the disk, the shared state file, Git, the file
  watcher, JSON forms, and the tool dispatch for agents.
