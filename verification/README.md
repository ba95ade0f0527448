# namesmith

Random names built from your own word lists, specified and proved in Verus.

What is trusted rather than proved: three calls into the standard library,
each behind a small wrapper in `src/text.rs` whose contract says what it is
taken to do. They are `String::push` (appends a character) and `{:?}`
formatting of a `str` and of a `char`. The quoted text of the latter two is
given a name, not a definition. Everything else, white space included, is
proved.

- `src/rng.rs`: the SplitMix64 generator. `next_u64` and `below` are
  specified over the generator's state. Proved: the rejection loop of
  `below` terminates, `below` keeps the first acceptable draw, and each value
  comes from equally many draws.
- `src/text.rs`: white space, trimming, decimal digits and the wrappers
  above.
- `src/validate.rs`: strict and lenient validation of word lists, and the
  errors a refused list is answered with.
- `src/names.rs`: `NameGenerator` ("First Last").
- `src/template.rs`: pattern parsing and `TemplateGenerator`.
- `app/lib.rs`: seeding from the clock, and `Display` for the errors.
- `tests/`: the test suite.
