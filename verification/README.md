# rsomics_binned_statistic

Per-bin statistic of a second variable: bin `x` into equal-width bins and
compute the mean, standard deviation, median, count, sum, min or max of the
associated `values` within each bin, value-exact to
`scipy.stats.binned_statistic`.

## Layout

- `src/` — the verified library. Floating-point samples are carried as their
  IEEE-754 bit patterns (`u64`), and everything that is a matter of order,
  counting, selection or structure is proved against its contract:
  - `ieee` — IEEE-754 comparison and numpy's sort order on bit patterns;
  - `edges` — the data range, `digitize` and the bin number of a value
    (with scipy's rightmost-edge correction);
  - `binned` — per-bin counts, least/greatest sample, the two middle samples
    of each bin, and the stripping of the outlier bins;
  - `input` — the fields of a single column and of a two-column table;
  - `request` — the checks on bins, input lengths and range;
  - `statistic` — the statistics and the command-line choice of one.
- `app/` — the program: command line, file input, `fast_float2` number
  parsing, and the floating-point arithmetic (edges by `linspace`, sums,
  means, standard deviations, the median's average, edge rounding).
- `tests/` — tests of the library on concrete values, including checks of
  the bit-pattern comparisons against the `f64` operators.
