# stellar-archivist

The verified core of a tool for Stellar history archives.

- `src/` is the library. Its functions state their contracts, and Verus proves them;
  the laws that span functions stand there as proof functions named `law_*`.
  The gzip, XDR, SHA-256 and random-number crates and the clock are called through
  small trusted functions, each with a doc comment that says what is believed of it.
  Of the clock nothing is.
- `tests/` runs the library with those crates linked.
- `app/` is the program around it: arguments, files, signals, printing.

## Damaging an archive

`run::run` takes an archive, the names of kinds of corruption, a count and a seed. It
does no I/O: each call says what to do next (list, read, write, remove) and takes what
came of it. `archive::law_corruption_breaks_one_file` says what comes of one corruption
as a whole, `archive::law_manifest_is_exact` that the manifest of a run names exactly
the files that changed, and `archive::law_seed_repeats_run` that the seed decides it. To
tell, a run keeps what each file that it changes held at first. A file that cannot be
read is named once it was overwritten or removed, since nobody can know what it held.

## Reports and measurements

`checkpoint::Checkpointer` decides when the report of a run is due, by a count of
completed checkpoints or by time; with an interval of 0 only a signal writes one. `metrics::Metrics` holds the counters of a run;
nothing is counted unless recording is on.
