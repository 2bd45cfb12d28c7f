# active_recall

Exercises on ownership, error handling, parsing, caching and CPU-bound work,
with their logic written in Verus and proved against contracts.

- `src/` is the verified library. Each module states its behaviour over
  mathematical models (`Seq`, `Map`, spec functions) and proves it:
  - `documents`: a document cache that counts accesses, a manager that answers
    from its cache before searching, and a processor that cross-references.
  - `commands`: `name,score` records, `verb:key:value` commands and request-log
    latency fields, parsed line by line.
  - `int_parse`, `text`, `str_map`: decimal parsing with std's error kinds,
    string splitting, and a string-keyed map with distinct keys.
  - `layered_errors`, `derived_errors`, `nested_errors`: phone and record
    parsing through layers of error types.
  - `primes`, `cpu_work`, `random_work`, `memory`, `text_tasks`,
    `chunk_stream`: trial division, Fibonacci, map sums, random battles,
    leaky and caching processors, small text tasks, a two-chunk source.
- `tests/` runs the library on concrete values.
- `app/` is the program around it: argument dispatch, printing, threads,
  channels, async tasks, HTTP, and the error types that need `Display`,
  `std::error::Error` or derives of `thiserror` and `serde`.
