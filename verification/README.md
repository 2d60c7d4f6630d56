# tuxcleaner

A cleaner for Linux systems: it finds what takes up room, what can be removed and
what can be uninstalled.

- `src/` is the library. It decides and computes, reads no file and starts no
  program, and is verified with Verus.
- `app/` is ordinary Rust around it: it lists directories, runs commands, reads the
  clock and serialises what was found.
- `tests/` runs the library on trees, listings and answers held in memory.
