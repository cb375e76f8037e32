# byoh_core

The core of a head-up display for War Thunder, verified with
[Verus](https://github.com/verus-lang/verus): it reads the documents of the
game's local interface, computes fields from them over time, evaluates the
user's indicators and lays out the rows of the overlay's windows.

## Layout

- `src/` is the library. Verus proves its functions against their contracts, but
  for the small functions marked `external_body`, whose contracts it believes.
  - `num`, `arith`, `single`, `rounding`, `digits`, `fixed`, `number`: numbers in
    double and single precision as bit patterns, with correctly rounded
    arithmetic, printing and reading.
  - `text`, `table`: texts and tables of named values.
  - `json`, `http`, `polling`, `client`: documents, replies, and the client that
    makes a frame of them.
  - `fm`, `derived`: the flight-model database and the computed fields.
  - `expression`, `helpers`, `formula`, `syntax`, `calculator`, `defs`: indicators
    and their rows.
  - `color`, `style`, `layout`, `surface`: how the rows are drawn.
  - `fm_update`, `install`, `progress`: releases of the flight-model database.
  - `paths`, `settings`, `setup`, `platform`, `catalog`, `build_version`: the
    decisions of the programs around the display.
  - `laws`: what holds of a client as a whole.
- `app/` is ordinary Rust around the library: files, network, windows, drawing.
- `tests/` runs the library.

What the `evalexpr`, `serde_json`, `json_comments` and `zip` crates and the
standard library do for the library stands behind small functions marked
`external_body`; the comment above each says what is believed of it.
