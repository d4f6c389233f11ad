# hokori

A parallel disk usage scanner whose decisions are verified with Verus.

`src/` is the library. Its functions carry contracts that Verus proves, apart
from a few wrappers around outside calls, whose contracts are taken on trust;
threads, system calls and printing stay outside and exchange plain values with
it.

- `bytes`, `paths`, `text`, `seqs`: byte strings, paths as byte strings, names
  as text, facts about sequences.
- `sys`: what Linux, macOS and other Unix systems report about directories and
  files, from raw buffers to entries.
- `walk`: what a worker does with a directory, where it looks for work, when
  it stops, and how errors are sorted. `walk::whole` states what holds of the
  entries and errors of every walk.
- `scan`: adding up what a walk finds: totals, hard links, roots, progress and
  the tree of directories. `scan::laws` and `scan::places` state what holds of
  every scan.
- `report`: what is asked for on the command line, and the reports for people,
  for programs and for ncdu.

Public proof functions whose names begin with `law_` state what holds across
functions. The items marked `external_body` say what is taken on trust: the
set of `ahash` in `scan::dedup`, the JSON values of `serde_json` in
`report::ncdu` and the lossy UTF-8 conversion of the standard library in
`text`.

`app/` is the program around the library: command line, threads, system calls
and output. `tests/` holds the tests of the library.
