# unsynced

Finds crash-consistency bugs: the ways a program's on-disk state can be left
broken by a power loss at the wrong moment. A workload's file operations are
recorded, compiled into the units a file system may persist independently, and
every disk state that a crash can leave behind is handed to a checker. Failures
are minimized to the lost operations that cause them, and explained.

The library is written in Verus. Each function carries a contract that says
what it returns, and the contracts are proved.

## Layout

| module | what it holds |
|---|---|
| `trace`, `bundle`, `hex` | ops, snapshots, traces; the trace file of a bundle; byte payloads |
| `record` | what an in-process recorder logs |
| `syscall`, `strace` | reading the log of `strace -f -y -xx` |
| `model` | an inode-level file system and its micro-ops |
| `program` | compiling a trace into micro-ops and barriers |
| `crash`, `states` | crash states: candidates, closure, materialization, deduplication |
| `check`, `explain`, `report` | checking, minimizing, grouping, explaining, reporting |
| `recovery` | crashes during recovery |
| `cli` | the command line |
| `text`, `names`, `numbers`, `paths` | text, ordered maps, paths |

What holds of the library as a whole stands in the modules whose names end in
`laws`, and at the end of `bundle` and `hex`: for instance that
closing gives the smallest legal state, that a crash that loses nothing leaves
what the workload saw, that a clean report means that every examined state was
accepted, and that a recovery that passes survives a second crash.

Three functions of the standard library are believed, not proved: `String::push`,
`String::from_utf8_lossy`, and `format!("{:?}")` on a string.

`app/` is the program around the library: processes, files, threads and JSON.
`tests/` runs the library.
