# file_search

Fuzzy file search, with its decisions verified by Verus.

A search walks directories, feeds every entry to a fuzzy matcher and reports the
best matches for a query while the query changes and the walk goes on.

* `src/` is the verified library: paths and search directories, the order of
  matches, the session that turns the matcher's snapshots into reports, the
  schedule on which it does so, what of a walk is searched, how long it may be
  reused that an entry is a file or a directory, and the measurements around all
  this. Laws that span several functions stand as `law_` proof functions beside
  them.
* `app/` is the program around it: threads, channels, the walk itself, watches
  on directories, serialization, and the drivers of the measurements.
* `tests/` runs the library with the real matcher.

Matching is done by `nucleo`, globs are handled by `ignore` and JSON is written
by `serde_json`. What the library relies on of them is stated in `src/engine.rs`,
`src/overrides.rs` and `src/metrics.rs`. Paths are text with `/` between their
parts; where the system separates them otherwise, `app/` hands them over in this
form.
