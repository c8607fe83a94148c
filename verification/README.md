# pyrunner

A local cache of Python scripts: scripts are registered once (stored under
a content-hash name, indexed for full-text search with their description,
tags, function signatures and imports), found again by query, run, merged
when stored twice, and cleaned up when stale.

## Layout

- `src/` is the verified library (Verus). Every function there carries a
  contract over mathematical models of strings (`Seq<char>`) and
  collections, and the public proof functions state the laws the library
  keeps.
  - `text`: trimming, splitting, joining, decimal formatting and the `str`
    order, over character sequences.
  - `parser`: function headers and imported modules of a script, written
    as a grammar over the script's characters.
  - `search`: query tokens, the full-text match expression, term overlap.
  - `hash`, `calendar`, `paths`: content hashes, the UTC calendar month of
    a Unix time, identifiers and (absolute) storage paths.
  - `register`, `migrate`, `cleanup`, `runner`, `resolve`, `listing`: the
    decisions of registration, duplicate merging, cleanup, running,
    alias resolution and listing.
- `app/` is the command-line program around the library: argument parsing,
  configuration, the SQLite database, files, processes and the floating
  point ranking of search results.
- `tests/` runs the library on concrete inputs, including a comparison of
  the parser against the regular expressions it implements.
