# utiman

A local dashboard over utility-provider CLIs. The `utiman` library holds the
logic, specified and proved with Verus; the program in `app/` does the I/O
around it (HTTP, processes, files, the clock's side of things).

## Layout

- `src/` — the verified library:
  - `manifest` — provider manifests, their validation, and how user
    manifests override built-ins.
  - `extract` — reading balances, due dates and series rows out of CLI
    output: dot-paths into JSON, `Key: value` text, pipe tables, and the
    utility/v1 profile.
  - `dates` — calendar arithmetic and due-date / period-label parsing.
  - `check` — the due-date report: phrasing, ordering, exit code.
  - `server` — the API's decisions: the Host check, lookups, argv building,
    refusals.
  - `install` — install commands and the install task table.
  - `archive`, `snapshots`, `pending` — what the local history keeps.
  - `export` — CSV rows and the store-only ZIP writer.
  - `remind` — the launchd reminder's plist and its read-back.
  - `text`, `sort` — character helpers and a stable sort.
- `tests/` — tests run against the compiled library.
- `app/` — the `utiman` program: CLI, HTTP server, process runner, file
  storage, and the floating-point money handling.
