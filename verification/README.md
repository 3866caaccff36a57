# qb-tools

Three programs for qBittorrent, which talk to its WebUI API:

- `qb-move-after-days` moves torrents that have been complete for a number of days,
- `qb-move-on-low-space` moves torrents when a filesystem runs out of free space,
- `qb-autoremove` deletes torrents by removal tasks.

`src/` is the library, written and verified in Verus. It holds every decision of the three programs
and does no input or output of its own. Each program is a run (`AgeRun`, `LowSpaceRun`,
`AutoremoveRun`) with two methods: `action` says what the run asks for next, and `handle` takes the
answer.

- `move_after_days`, `move_on_low_space`, `autoremove`: the runs; `setup`: how they begin and end
- `rules`, `path`: move rules, and the save paths they apply to and lead to
- `age`, `low_space`: which torrents are moved, in groups that share their content
- `torrent`, `filter`, `condition`, `expression`, `task`: which torrents a task deletes
- `config`, `document`: the configuration of the tasks, read from TOML
- `address`, `api`: the requests to qBittorrent and what its answers mean
- `number`, `natural`: binary floating point of double precision, on integers
- `text`, `order`: text, and stable ordering

Calls into other crates that decide something stand behind small trusted functions: `address` calls
`reqwest::Url`, and `document` calls `toml_edit`.

`app/` is the ordinary Rust around the library: arguments, logs, files, the clock, filesystems and
HTTP. `tests/` runs the library.
