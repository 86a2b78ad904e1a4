# binning

Assigns the values of a column to bins: between explicit breakpoints or equal-width ones, by
quantiles, or by rank. The bins come out as indices or as an enum over labels, alone or together
with the left and right bound of every bin.

- `src/` is the library, verified with Verus. Columns are the library's own: values in their
  physical representation, integers as integers, floats by their bits, strings by their bytes.
  - `binning`: the operations; `output`: what they give.
  - `intervals`, `positions`, `search`, `sorting`, `casting`: where bins are cut, how breakpoints are
    searched, how a column is sorted and cast. Sorting and casting call `polars-core`.
  - `method`: the description of a binning.
  - `series`, `dtype`, `value`, `ordered_bits`, `error`: columns and what they are made of.
  - `laws`: what holds of binning as a whole.
- `app/` takes and gives polars columns, does the floating-point arithmetic and carries the
  descriptions that are stored and sent.
- `tests/` runs the library.
