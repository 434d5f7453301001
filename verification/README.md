# clove4apm

Application Performance Monitoring that returns a struct. No storage, no files,
no writers, no background threads: readings in, one `ApmReport` out.

Everything that is decided or computed stands in `src/`, with contracts that
Verus proves:

| Module | What it holds |
|---|---|
| `apm` | configuration, and how one snapshot turns readings into a report |
| `report` | the result types, the list of problems, the one-line summary |
| `verdict`, `triggers` | threshold rules and delta rules |
| `trend` | the memory ring and the slope of its floor |
| `hist`, `scope` | the latency histogram and the operations measured with it |
| `errors`, `allocator`, `net`, `disk`, `system` | counters and their deltas |
| `process`, `watch`, `checks` | this process, watched processes, dependency probes |
| `float`, `text`, `rows` | floating-point numbers, text and ordered rows underneath |

`app/` is ordinary Rust around it: it reads clocks, `/proc`, sockets and the
process list, keeps the process-wide state, and prints a demo report.

## Four rules it keeps

**`None` means unmeasured, never zero.** A guessed number is worse than no
number, because it gets believed.

**Cumulative counters always come with their interval delta.** Only the delta
answers "what is happening now".

**Percentiles, not averages.** A percentile is an upper bound, at most a
sixteenth above the sample of its rank and never above the largest one.

**The floor, not the peak, is the leak signal.** Raising a sample above its
segment's floor leaves the slope alone, and a window that is too short or too
sparse has no slope.
