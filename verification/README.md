# rcdu

An ncdu-like disk usage explorer that is interactive while it scans, with a verified core.

- `src/` is the library, written in Verus: the tree and its totals, the scanner's bookkeeping, the dump
  format, the application's reaction to every key, what is drawn, the command line and the update check.
  Every function is proved to meet its contract without panicking. What comes from outside (a
  message, the time, the disk) is left open there, and what is made of it is stated for each value.
- `app/` is the program around it: threads, files, the terminal, processes.
- `tests/` runs the library on concrete values.

## What is proved

Each function's contract stands with it. Properties that span functions are proof functions named
`law_..`, among them:

- a directory's aggregate is the sum of the own sizes of everything below it that counts, at every
  moment of a scan, and what is below an excluded directory counts no further up; batches, deletions,
  rescans and imports keep it so, and own sizes stay as they were found (`totals`, `upkeep`), over any
  number of batches and imports (`growth`);
- a batch that arrives before the directory it belongs to waits, and in whatever order the batches arrive,
  nothing is left waiting and the same comes of them: the same entries at the same paths, with the same
  sizes, errors and counts (`arrival`). Just their numbers may differ, as new entries are numbered as they
  are put in; where nothing with entries waits for a directory that is listed behind, not even those
  (`order`, `quiet`);
- the totals of an imported tree are right, and it comes back from an export entry by entry
  (`reimport`); a scanned tree comes back with its totals if nothing hangs below what does not count and
  hard links are shared as a scan shares them (`roundtrip`);
- each hard-linked inode counts once in a scan, in whichever directories its links lie, directory ids are
  given out once, and excluded entries do not count (`scan`);
- what is being viewed is scanned first, and no job is lost by a change of focus (`frontier`);
- nothing is deleted that was not confirmed and scanned in full, and nothing in read-only mode
  (`conduct`).

## What is believed

`src/outside.rs` holds the calls into other crates with what is believed of each; the one exception is
`String::push` in `src/text.rs`.
