# cadran

The logic of a multi-timezone menu bar clock, verified with Verus.

- `src/resolver.rs` — resolving user input to a time zone: IANA identifiers
  through the time zone database, UTC/GMT offsets through the normalised
  `UTC±HH:MM` form (with the laws that normalising is idempotent, ignores
  ASCII case and surrounding whitespace, accepts exactly the `H`, `HH`,
  `H:MM`, `HH:MM` and `HHMM` forms, and that normalised identifiers parse
  back to the same offset).
- `src/search.rs` — the search index over the time zone database: city,
  abbreviation and family tags, fuzzy keys, offset suggestions, combo items
  and completions (with the laws that every zone is found by its identifier
  and its city, that a part of a query keeps its matches, and that the combo
  items are the suggestions followed by the sorted zone names).
- `src/timezone.rs` — saved entries (each with a record of the text it was
  resolved from), their display at an instant in their own zone, and the
  calendar behind Today/Tomorrow/Yesterday.
- `src/settings.rs`, `src/preferences.rs`, `src/menu.rs` — what is saved and
  restored, the decisions of the preferences window, and the menu texts.
- `src/text.rs`, `src/sorting.rs` — the character-level text model and the
  stable sort the other modules rest on.
- `src/zones.rs` — the calls into `jiff`, each behind a wrapper whose
  contract states what `jiff` documents.

`app/` holds the macOS program around the library (AppKit through `objc2`,
user defaults, JSON); it builds only for Apple targets.
