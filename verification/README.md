# backup_core

Backups of the settings of apps, as a library whose behaviour is stated in
contracts and proved with Verus.

A configuration lists apps with their paths on each platform, exclude rules and
how many backups are kept. A backup of an app packs what lies at its paths into
a zip, a tar.gz or a plain copy, writes a summary beside it and lists it in an
index; old backups are cleaned up.

- `src/` computes on plain values: paths and variables, exclude rules, names in
  and of backups, summaries, the index and its retention, the course of a backup
  from step to step, and what the command line and the desktop show and change.
- `app/` is the program around it: the command line, files, threads, archives,
  and the JSON forms of the types.
- `tests/` runs the library, whole backups included, on a disk in memory.

What is taken from other crates without proof stands behind small wrappers in
`excludes.rs` (matching of globs), `checksum.rs` (SHA-256), `clock.rs` (the
time), `config.rs` (the directories of the user) and `appid.rs` and `text.rs`
(strings of the standard library). Each says what is relied on.
