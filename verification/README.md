# showback-forge

Per-team / per-product / per-tenant cost views from attribution events,
with their behaviour proved in Verus.

- `src/` is the verified library. Costs are exact integers in micro-dollars
  (millionths of a US dollar) and instants are seconds since the Unix epoch,
  so sums, rankings and percentages are computed without rounding; the text
  layouts round to cents and tenths of a percent only when printing.
  - `event`: the event, its dimension lookup and period alignment.
  - `amount`: sums of costs over sets of values and periods, and the facts
    that regroup and bound them.
  - `ordering`: code-point text order and the ranking sort.
  - `view`: `render` (wide table), `trend` and `top`.
  - `text`, `layout`: number formatting, column alignment, sparklines and the
    three human-readable layouts.
  - `time`: reading the clock as a timestamp, and the call into `chrono`
    that names calendar days.
  - `laws`: properties across the views (costs balance, every event counted
    once, the views agree with one another).
  - `uniqueness`: each view is a function of its arguments and does not
    depend on the order of the events.
- `app/` is the command-line program: argument parsing, reading JSON Lines,
  parsing period lengths, JSON output.
- `tests/` exercises the library.
