# bashprof

A line-level time profiler for bash scripts. `bashprof run` executes a
script under `set -x` with a machine-readable `PS4`, then attributes the
time between consecutive trace events to the lines, functions and call
stacks that produced them.

## Layout

- `src/` — the library, written in Verus and verified:
  - `ps4.rs` the `PS4` prompt and the bootstrap program the shell runs;
  - `trace.rs` the trace format and its parser;
  - `profile.rs` attribution of self-time to lines, functions and stacks;
  - `report.rs`, `collapse.rs`, `jsonout.rs` the three renderings;
  - `cli.rs` the command-line grammar and the commands' decisions;
  - `runner.rs` the shell's argument list and the `END` record;
  - `binary64.rs` an exact model of the float arithmetic behind the
    report's durations and percentages;
  - `text.rs`, `sorted.rs`, `tally.rs` text helpers and general facts
    about ordered tables and grouped sums.
- `tests/` — tests of the library on concrete inputs.
- `app/` — the `bashprof` program: argument vector, files, the profiled
  process and the clock.

Each public function states its result in its contract; the properties
that span functions (a profile is determined by its trace, the tables add
up to the same total, an appended `END` record is read back, and so on)
are proof functions whose names begin with `law_`.
