# recreate

Browser backtesting for recreated web pages, with its logic verified by Verus.

A *recording* is what a browser observed of a page: per state and viewport,
every element's geometry, text, style, accessibility and animation, the page's
stylesheets and runtime activity, and screenshot tiles. The library compares a
recorded recreation with a recorded source and reports, finding by finding,
where they differ; it also holds the oracle, which records a page's
behaviour scenario by scenario and certifies a candidate against it.

## Layout

- `src/backtest/` — the comparison: the evidence model (`model`), findings per
  node and per state (`compare`, `matched`, `pairing`, `topology`, `motion`,
  `runtime`, `authored`), grouping and compaction of findings (`grouping`,
  `compact`), the verdict and report (`verdict`, `report`, `focus`), the width
  sweep (`sweep`, `swept`), screenshot evidence (`raster`), the qualification
  gate (`fixture`), the comparison deadline (`deadline`) and the paths the
  local fixture server accepts (`server`).
- `src/oracle/` — the oracle: scenarios and discovery (`scenario`, `discovery`,
  `graph`, `obligations`), sealed artifacts and their checks (`artifact`),
  certification of a candidate (`compare`), recording decisions (`engine`),
  network fixtures (`network`) and qualification (`qualification`).
- `src/browser/` — locating the browser executable and retrying its launch.
- `src/json.rs`, `src/keyed.rs`, `src/order.rs`, `src/text.rs`, `src/digest.rs`
  — JSON values, sorted keyed lists, orderings, text and SHA-256 digests.
- `app/` — the command line: reading and writing evidence files, the
  floating-point proximity measure used to pair elements, and the local
  fixture server.
- `tests/` — the test suite.

Every function in `src/` carries a contract that Verus proves. Calls into
`sha2`, `hex`, `base64`, `url` and `image` stand behind small trusted
wrappers whose contracts name what those crates compute.
