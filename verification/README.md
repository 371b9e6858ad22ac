# tricord

Run a command, watch its entire process tree, and report how much CPU, memory and disk I/O it used.

- `src/` is the verified library. It folds snapshots of a process tree into one record
  (`sampler`), turns what Linux and macOS show of a process into snapshots and finds the
  descendants of a process in a listing (`platform`), writes records as Snakemake-compatible
  tables (`record`, `format`, `table`), decides which outputs collide (`path`, `run::options`), and
  says which step of a run or of the sampling loop comes next (`run::phases`, `sampler::cycle`).
  Amounts are binary floating-point numbers of 64 bits, kept as their bits and computed exactly to
  the nearest one (`quantity`, on integers of any size from `natural`).
- `app/` is the `tricorder` program: arguments, files, threads, signals, and reading `/proc` or
  `libproc`. It carries out the steps that the library asks for.
- `tests/` runs the library from outside.

What holds of every run is stated and proved in `sampler/laws.rs`, `sampler/trace_laws.rs`,
`sampler/cycle.rs`, `platform/tree.rs`, `path.rs`, `table.rs`, `run/exit.rs` and `run/phases.rs`, and
what holds of amounts in `quantity.rs`.

```text
tricorder --out timing.tsv -- bash -c 'samtools sort -@ 8 big.bam -o sorted.bam'
```
