# brudb

Two small file-backed stores and a daily planner built on them, verified with
Verus.

- `SimpleDB` keeps `key:value` pairs, one line each in its file.
- `ColonDB` keeps rows of values keyed by row id (`key:v1,v2,...`), with the
  first row naming the columns; its rows are held in an `IndexMap`.
- The planner keeps schedules of `(time, activity)` pairs in `SimpleDB` files
  and turns them into daily cron schedules for desktop notifications.

`src/` is the verified library: the file formats, every store operation, the
time-table computations and the menu decisions, each with its contract, and the
laws that relate them (a saved store reads back the same; a value set reads back
as set; sorting is a stable sort and leaves no choice; every valid clock time gets
its cron expression). `app/` is the interactive program: files, prompts, threads,
the clock and notifications. `tests/` exercises the library on concrete values.
