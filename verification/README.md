# benchkit (`bk`)

A command benchmarking tool: it runs a shell command a number of times after
some warmup runs, and reports mean, standard deviation, min, max and the 50th,
95th and 99th percentiles of the wall-clock times; it can also compare two
commands.

- `src/` is the verified library. Timings are whole nanoseconds and every
  statistic is exact: the mean and the variance as fractions, percentiles by
  linear interpolation in hundredths of a nanosecond.
  - `natural.rs`: natural numbers of any size (base-2^64 digits), for the
    sums of squares and the products that exceed 128 bits.
  - `stats.rs`: samples, merge sort, the statistics and their laws.
  - `runner.rs`: option checks and the decisions of the benchmark loop (which
    run comes next, what an outcome does), with the warmup law.
  - `compare.rs`: the comparison of two benchmarks.
  - `output.rs`: padding and rules for the text tables.
- `app/` is the program: command line, process spawning and timing, progress
  bars, colours, JSON, and the conversion of exact values to floating-point
  seconds for display.
- `tests/` runs the library on concrete values.
