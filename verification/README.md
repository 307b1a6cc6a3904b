# ssb_parser

Verified building blocks of a parser for SSB (SubStation Beta) subtitles, written in Verus.

- `src/values.rs`: timestamps `[H:M: | M:][S.]MS`, boolean flags, alpha and color values, and
  helpers that map optional texts to results.
- `src/macros.rs`: macro tables and the flattening of macros that refer to each other with
  `${name}`.
- `src/tags.rs`: escaped text split into tags and geometry, and tag lists split into tags.
- `src/error.rs`: parse errors and macro errors.
- `src/text.rs`: character-level helpers.
- `app/lib.rs`: std trait impls around the library (`Display`, `Error`, conversions).

Each public function states its result in its contract over the spec functions beside it;
the `law_*` proof functions state what holds across calls.
