# duscan

A disk-usage scanner. It walks the trees of the configured targets, device by
device, counts what users and teams own, and writes one report database for each
target: files and directories by user, a treemap, permission issues, and a history
of one snapshot a day. A terminal screen edits the configuration, starts scans and
shows the reports.

## Layout

- `src/` is the library. Everything in it is proved with Verus against the contract
  that stands at each function; it opens no file, database or terminal.
- `app/` is the program around it: the command line, the walk over the file system,
  SQLite, the terminal, and the commands that leave the machine.
- `tests/` runs the library on concrete values.

## Modules

| Modules | What they decide |
| --- | --- |
| `text`, `paths`, `order`, `interner`, `display` | Strings, paths, sorting, tables of names, figures for people |
| `config`, `stored`, `cli` | Targets, teams and users; what saving and loading them keeps; command lines, batch jobs, status |
| `scheduler`, `scan_view`, `orchestrator`, `monitor`, `tracking` | Which devices are scanned with how many workers, and the steps of every scan |
| `mounts`, `walk`, `worker` | What a walk enters, counts, and counts once; the records it leaves |
| `events`, `scope`, `spill`, `ingest`, `users`, `tally`, `path_tree`, `tree_sums` | The records of a walk and what they add up to |
| `detail`, `report`, `arrival`, `treemap`, `permissions`, `db`, `schema` | The rows of a report, that all of a scan arrives in them, and the tables they go to |
| `history`, `snapshots`, `listing`, `exporter`, `tables` | Snapshots, growth, and what is printed or exported |
| `tui`, `tui_nav`, `screen`, `screen_rows` | The screen: keys, cursor, input lines, what is shown |

Proof functions named `law_...` state what holds across functions: that records read
back as they were written, that nothing is counted twice, that a report's totals add
up, that a refused change changes nothing.

Calls into other crates stand behind small functions with their own contracts, at
the top of the module that needs them: `lz4_flex` and `dashmap` in `spill`, `zstd`
in `treemap`, `dashmap` in `walk`, `libc` in `scheduler`.
