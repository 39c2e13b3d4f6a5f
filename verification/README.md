# libscoop

The decisions of a Scoop-compatible package installer, written and proved in
Verus.

An installation step is planned first and carried out afterwards. A plan is a
list of actions: variables to set, directories to make, files to move, scripts
to run. The library computes plans from plain values, and its contracts say
exactly what each plan holds.

- `src/env.rs`: variables and path entries of packages
- `src/persist.rs`: data that outlives a version
- `src/script.rs`: scripts that packages run
- `src/shortcut.rs`: start menu entries
- `src/internal/archive.rs`, `src/internal/sevenz.rs`: unpacking of archives
- `src/internal/path.rs`: the path syntax of Windows and of Unix
- `src/**/*_laws.rs`: what holds of several functions together
- `app/`: carries the plans out
- `tests/`: examples
