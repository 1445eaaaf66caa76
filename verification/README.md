# monodep

`monodep` deduplicates dependencies across the workspaces of a `mise`
monorepo. It reads `[monorepo].config_roots` from `mise.toml`, discovers the
Node.js and Python workspaces, links `workspace:` and `file:` dependencies
into `node_modules`, and hard-links packages that several workspaces install
to one copy under `.monodep/store`.

The decisions are made by a library verified with Verus; a thin command-line
program reads the file system, hands the library plain values, and carries
out the steps the library plans.

## Layout

- `src/` — the verified library:
  - `value.rs`: documents (JSON, TOML) as plain values;
  - `text.rs`: strings and paths, with their specifications;
  - `strmap.rs`: a sorted string-keyed map;
  - `models.rs`: options, errors and the plan's data;
  - `manifest.rs`: finding the root, discovering workspaces, dependency
    entries, filter closure, executables;
  - `pm.rs`: choosing the package manager and the commands it runs;
  - `engine.rs`: resolving local links, the plan, `why`, `doctor`, the steps
    of a sync and of the single-workspace commands;
  - `dedup.rs`: scanning installed packages, planning deduplication and
    pruning the store.
- `tests/` — tests of the library on concrete values.
- `app/` — the `monodep` command line: argument parsing, file-system reads,
  running package managers, making links and hard links.
