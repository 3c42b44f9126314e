# bff_soup

A primordial soup of self-modifying BFF programs. Tapes of random bytes are
shuffled, paired, concatenated and run by a ten-instruction interpreter that
lets programs rewrite themselves and each other; background mutation keeps
the soup stirred. Statistics (entropy, opcode frequency, distinct tapes and
code skeletons) and a catalogue of self-replicating loops are logged.

Layout:

- `src/` — the verified library.
  - `interpreter.rs`: the BFF interpreter, its step semantics as spec
    functions, bracket matching, and laws about matching and raw data.
  - `soup.rs`: pairing tapes, epochs, background mutation, and the decision
    of what a run shows after each epoch.
  - `stats.rs`: byte and opcode counts, distinct tapes and skeletons,
    compression, loop detection and classification, sampling, progress bar.
  - `catalogue.rs`: counting and ranking replicator patterns by family.
  - `order.rs`: lexicographic order on byte strings and sorting.
  - `random.rs`: the random sources, from `rand`.
- `app/` — the program: terminal table, progress bar, JSON-lines logs, and
  the floating-point statistics.
- `tests/` — tests of the library.
