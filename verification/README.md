# simple_backup

A minimal backup program: files are stored in zstd-compressed tar archives,
together with the config that made the backup and the list of files it holds.
Backups can be incremental (only the files changed since the previous backup
go in), restored selectively, and merged.

## Layout

- `src/` is the library, written in Verus: every function in it carries a
  contract that Verus proves. It holds the rules of the program: how paths are
  named inside archives, how file lists are written and read back, which files
  a backup takes (the crawl order, exclusions and filters, incremental
  selection), which backup an incremental restore goes back to, what a restore
  takes from an archive entry by entry, how file lists of several backups are
  merged and how the merged archive is copied, the config rules and how a
  config is edited by hand, the command line values and the error messages.
- `app/` is the command line program around the library: argument parsing
  (clap), the disk, the clock, the archives themselves (tar and zstd), YAML
  (serde) and progress bars. It hands the library plain values and acts on
  what the library decides.
- `tests/` runs the library on concrete values.

There is no graphical interface: its drawing, file dialogs and worker threads
(iced, rfd) are not part of this crate. Its editing rules (moving paths between
the included and the excluded ones, storing only filters that compile) are in
`src/editing.rs`.

The calls the library makes into other crates (regex, chrono, path-clean,
path-absolutize, num_cpus and a few parts of std) go through small trusted
wrappers; each says in its doc comment what it assumes of the call.
