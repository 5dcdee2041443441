# votery

Orders over a finite set of elements (candidates), collections of such
orders (ballots), and voting methods that count them, written in Verus:
the functions in `src/` carry `requires`/`ensures` contracts that Verus
proves, except for a few trusted wrappers (the calls into `rand` in
`random.rs`, and `String::from_utf8` in `parse.rs`), whose contracts are
assumed.

## Layout

- `src/` — the verified library.
  - `binary`, `cardinal`, `specific`, `strict`, `tied`, `rank`, `votes`:
    single orders and dense collections of them, with their text formats.
  - `toi`, `toc`, `soi`, `soc`, `chains`, `total_ranking`: collections of
    tied and strict orders, complete or incomplete.
  - `partial_order`, `order`: partial orders built from the other kinds.
  - `methods`, `star`, `random_ballot`: voting methods (approval, plurality,
    Borda, STAR, random ballot).
  - `categories`, `ranks`, `roundtrip`: properties stated across functions
    and proved as public proof functions.
  - `random`: the calls into `rand`, each behind a trusted wrapper whose
    contract states only what holds of every outcome.
  - `sort`: a stable sort by a comparison that the caller gives.
  - `parse`, `util`: byte-level parsing and small helpers.
- `tests/` — tests run against the compiled library.
- `app/` — unverified code: reading orders from a `BufRead`, and sampling
  with floating-point distributions.
