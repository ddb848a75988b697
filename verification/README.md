# ease_proc

A desktop monitor of the local machine, of local programs and of remote hosts,
with its decision logic verified in Verus.

- `src/` is the library. It holds the state of every monitored target, decides
  what happens to it, reads what remote kernels report, and writes the texts that
  are shown. Work that has to be done outside (starting a process, asking a
  database, waiting) is asked for as a value, and the answer is handed back.
- `app/` does that work: the window, the database, processes, SSH and the network.
  It runs under Windows; elsewhere it starts without a window. Under Windows it
  also needs `tauri` 1 with its plugins for autostart and single instances.
- `tests/` runs the library.

Modules of the library:

| module | about |
| --- | --- |
| `text`, `number`, `rounding` | lines and words, decimal numbers, floating point texts in integer arithmetic |
| `monitor`, `monitor_manager` | targets, their records and tasks |
| `local_host_monitor` | the local machine |
| `process_sampler`, `local_process_monitor` | process trees, and the watch over a program |
| `paths` | when paths are the same, and their parts |
| `console` | output of programs as lines of text |
| `remote_host_monitor` | remote hosts |
| `nodes` | other instances in the local network, versions and updates |
| `commands`, `logging` | what the user interface asks for, and the log |

Floating point numbers that are only carried are held as their bits. Texts that
a floating point computation would give are computed in integers, from a model of
the rounding. That the model is right is not proved: `tests/rounding.rs` compares
it with the machine on samples.
