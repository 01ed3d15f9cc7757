# select_simd

Verified building blocks for running `SELECT` queries over CSV data held in
memory.

- `scan`: finds line starts (`scan_delimiter`), 16 per block, in 64-byte chunks;
  a scan can resume at the position it returns.
- `parse`: finds, for each line, the position after its n-th separator
  (`detect_separator`), sixteen lines at a time.
- `eval`: keeps the positions at which a four-byte pattern occurs
  (`eval_string_equal`).
- `conv`: converts decimal fields to `i64` (`conv_atoi64`).
- `util`: merges sorted row-index lists (`index_and`, `index_or`) and encodes
  index vectors as little-endian words.
- `query`: the sample query that chains the steps above.

`app/` holds the file handling: writing index vectors and reading a CSV file
for a query.
