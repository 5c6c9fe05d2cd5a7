# desklog

Records what happens at a desk — the app in front, its window title, and how
long input has been idle — as spans in a local sqlite file, and reads them back
as summaries, a raw log, CSV and one-line JSON.

## Layout

- `src/` — the verified library (Verus):
  - `tracker.rs` — the session clock: sessions broken by long idle time, time in the current app.
  - `span.rs` — the collector's per-sample decision: extend the open span or open a new one, and
    how the active window is read (window query first, the frontmost app where it names none).
  - `focus.rs` — spans joined app by app into blocks (with the exact condition under which every
    sum stays within `i64`), the focus test and list, and the laws of the joining (input time kept,
    one entry per title).
  - `summary.rs` — focus totals per local day and per app (ranked), with their laws.
  - `report.rs` — the JSON of `now`, CSV rows, `log` lines with gap markers, the hour table, health
    verdicts (the share without a title covers the last hour; the title warning looks at the last 24 hours).
  - `lines.rs` — the printed lines of `top`, `focus` and `doctor`.
  - `clock.rs` — UTC offsets, local hours and clock times, calendar days with the proof that they are dates.
  - `text.rs` — decimal numbers, durations, truncation by characters, JSON/CSV quoting, trimming.
- `app/` — the program: command line, sqlite store, OS queries (window, idle time, lock state), the clock.
- `tests/` — behaviour tests of the library.
