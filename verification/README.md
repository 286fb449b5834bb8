# MITOS System Monitor

A system monitor for MITOS: CPU and memory over time, a table and a tree of the
running processes, the buffers of the running terminals with a search through all
of them, and alerts that are put into a terminal as a gauge and a button.

- `src/` is the verified library: what is listed, how it is ranked, filtered,
  linked and laid out, what is searched and found, what is sent, and what the
  interface says.
- `app/` is the program around it: the window, the worker that talks to the
  terminals, and the reading of files and sockets.
- `tests/` runs the library.

The library speaks of CPU usage by the bit patterns of single-precision numbers,
and of node positions by a plan of placements; `app/` turns both into floating
point. Running processes come from the `sysinfo` crate.

| Module | Content |
| --- | --- |
| `text` | words, lines, substrings, decimal numbers |
| `cpu` | CPU readings, their order and their colours |
| `process` | running processes and the name filter |
| `tree`, `layout`, `positions`, `tree_view` | the process tree and its picture |
| `table`, `sidebar` | the process table and the details of a process |
| `terminals`, `buffers`, `monitor` | terminals, their buffers, alerts, interface state |
| `history`, `stats` | series of measurements, taken once a second |
| `procfs`, `scraper` | figures of the kernel, sockets of terminals |
