# streamline

A stream processing engine: operators connected by bounded pipes, event-time windows,
backpressure, checkpoints and metrics. The logic is verified with Verus.

- `src/` is the library.
  - `channel`: bounded pipes, and what a full pipe does to the sender
  - `operator`: operators, how their results reach every receiver, and the steps of their loop
  - `window`: tumbling, sliding and session windows
  - `sources`, `sinks`, `pipeline`: where records come from and end up, and the final report
  - `metrics`: counters and a latency histogram
  - `checkpoint`: names, order, cleaning up and the search for the latest valid checkpoint
  - `monitor`: a monitor of web requests built from these, over numbers given by their bits
    (`ieee`)
- `tests/` runs the library.
- `app/` is the program around it: threads, files, sleeping and floating-point arithmetic.

What the library promises across several calls is stated by the public proof functions whose names
start with `law_`. Calls into other crates go through functions and declarations whose doc comments
say what is taken on trust.
