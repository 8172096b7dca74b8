# ypbank_parser

Reading and writing lists of YPBank transactions in three formats (CSV, a
human-readable text format and a compact binary format), with contracts
proved by Verus.

- `src/` is the verified library. Each reader is stated against a
  specification of what the input's bytes denote; each writer against the
  exact bytes it produces; `lemma_write_read_roundtrip` in `src/lib.rs`
  proves that reading what was written gives back the transactions, for
  transactions that the format carries unchanged: in CSV and the text format
  a description without a line end; in the binary format a description that
  neither begins nor ends with `"` and a record whose length fits 32 bits.
- `src/compare.rs` compares two lists regardless of order and proves that it
  reports no difference exactly when both lists hold the same elements with
  the same multiplicities; `compare_transactions` does so for transactions,
  which are alike when all their fields are equal.
- `app/` is the command-line program (`convert` and `compare`), which does
  the file and console I/O around the library.
- `tests/` runs the library on concrete inputs.
