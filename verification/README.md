# hpr_xtask

The logic of the hpr-sim workspace's development tasks (`cargo xtask`), as a library whose
functions carry their contracts and are proved by Verus.

- `src/layering.rs`: which workspace crates may reach which others, and the first shortest
  dependency path that breaks a rule.
- `src/docs.rs`: the lessons doc checked against the roadmap, and the current milestone that
  `STATUS.md` names.
- `src/census.rs`: the accuracy census's command line, its table block in `README.md` and
  `docs/accuracy.md`, and its check's verdict.
- `src/examples.rs`: where an example's output is committed and how a new output differs from it.
- `src/ork_library_flights.rs`: which designs of the library are private, taken in the order of
  their SHA-256, and how many designs have a flight compared in all five spreads.
- `src/ork_corpus_flights.rs`: the counts of OpenRocket's flights by where each design came from.
- `src/ork*.rs`, `src/aero.rs`, `src/tally.rs`: the surveys' naming, counting and filing rules.
- `src/digest.rs`: a file's SHA-256 as the records write it.
- `src/path.rs`: paths as `std::path::Path` reads them on Unix (file name, parent, joining).
- `src/text.rs`: the string operations the rest is stated in.
- `tests/`: the tests, run against the compiled library.
- `app/main.rs`: one command, `ork-flights --corpus`, which reads the corpus report and prints
  its counts through the library; the other tasks are not wired to a command line.
