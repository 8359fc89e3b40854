# headerscan

Audits HTTP response security headers, grades them, and explains the risk of
each finding. The rule set is a verified Verus library (`src/`); the command
line, the HTTP request and JSON output live in `app/`.

## Layout

- `src/text.rs`: the character model (whitespace, trimming, ASCII case,
  splitting, decimals, lexicographic order) and verified string operations.
- `src/headers.rs`: the header set and the HSTS, cookie and CSP parsers.
- `src/analyze.rs`: every rule as a spec function, the checks proved against
  them, scoring, grading and ordering, and the laws of an audit.
- `src/fetch.rs`: URL normalisation and how response fields become a header set.
- `src/report.rs`: text rendering, the summary of several reports and the exit
  status.

## Why vectors rather than a map

`Headers` and `Csp` are keyed by strings. With `String` keys, vstd's
specifications of `BTreeMap` and `HashMap` give too little to prove anything
about the map's contents (not even its size after one insertion), so neither
type could carry the contracts needed here (a lookup that ignores case, values
kept in arrival order, directives listed in name order). Both types therefore keep their entries in
vectors: `Headers` as distinct lowercase names with their values, `Csp` as
directive names in strictly increasing order with their source lists. Each
type has a type invariant and a `Map` view, and every method is proved
against that view.
