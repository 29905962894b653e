# vaultsync

The core of a desktop manager for a Steam library kept on an external
"vault" SSD: the vault holds every game, and games are copied to a local
Steam library to be played.

`src/` is a library verified with Verus. It takes every decision on plain
values and states it in contracts:

- `vdf_isolation` — removing one AppID from the vault's `apps` block in
  Steam's `libraryfolders.vdf` while every other line is kept, and the
  step machine that hides the vault from Steam around an update and rolls
  back on failure;
- `catalog` — parsing `appmanifest_*.acf` files and the rows a rescan of
  the vault records;
- `metadata` — folder-name normalisation, AppID resolution against the
  store's app list, update detection from `StateFlags`;
- `drives`, `steam`, `copy`, `paths`, `text` — drive and library
  selection, `libraryfolders.vdf` library paths (via `keyvalues_parser`),
  `steam://` URIs, pause/resume/cancel of a copy, Windows path layout and
  the string operations the rest is built on.

Public proof functions (`lemma_*`) state the laws the library keeps, such
as the strip deleting only the AppID's entry lines, being idempotent, and
the isolation always finishing and rolling back its edit when Steam does
not exit.

`app/` is the ordinary Rust around it: SQLite, the file system, HTTP,
process inspection and the copy loop. `tests/` runs the library on
concrete values.
