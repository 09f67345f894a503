# lib: universe levels and trace corpora, verified

A Verus library for two things a Lean elaborator test harness needs:

- **Universe levels**: a byte codec for levels and names, the total order
  normalization sorts by, normalization itself, occurrence checks, and the
  quick part of level definitional equality.
- **Trace corpora**: the file header, the framing of records, a writer and
  a reader over in-memory bytes, a registry of replay functions and the
  replay of `isLevelDefEq` records.

Every function in `src/` carries a contract. Verus proves each of them
but one: the wrapper around `str::parse::<usize>` used for `--limit`,
whose contract restates std's documentation and is trusted. Among the
properties proved:

- decoding an encoded level or name gives it back, and different levels
  encode differently;
- writing records and reading the bytes back gives the same header and
  records;
- normalization keeps a level's value under every assignment of its
  parameters and metavariables, sorts by a strict total order, and is
  idempotent on a level exactly when the level's normal form has no `Succ`
  directly above a `max`;
- a replayed `isLevelDefEq` record matches exactly when its input is the
  encodings of two levels back to back.

## Layout

- `src/`: the library (`level*`, `name_order`, `format`, `record`,
  `registry`, `replay`, `args`, `text`, `bytes`, `compact`).
- `tests/`: tests that run the compiled library.
- `app/`: the `lean-diff` command-line runner, which reads a corpus file
  and walks its records through the library.
