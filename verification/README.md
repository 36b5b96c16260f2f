# asleep

A GNU sleep-compatible sleep utility with a live countdown, suspend-aware waiting and
flexible deadlines (`asleep 1h30m`, `asleep --until tomorrow 8am`,
`asleep --until "2026-12-25 10:00:00+02:00"`).

The logic is a library verified with Verus; the program around it is ordinary Rust.

## Layout

- `src/` — the verified library:
  - `text.rs`: byte-level trimming, searching and decimal parsing of UTF-8 text;
  - `duration.rs`: whole-second durations and their human-readable form (`1d2h3m4s`);
  - `datetime.rs`: calendar values and Unix timestamps, with both round trips proved;
  - `parse.rs`: durations, times of day, UTC offsets and deadlines, each against a
    specification over the input bytes, with laws on where deadlines fall;
  - `args.rs`: the command line, decided from the arguments, the current time and the
    local UTC offset;
  - `sleep.rs`, `display.rs`: the decisions of the sleep loop and the countdown line;
  - `utc_offset.rs`: the UTC offset in whole hours, and from a time-zone bias.
- `app/` — the executable: reading the arguments, the clock and the system time zone,
  signal handling, the terminal, and the sleep loop that follows the library's steps.
- `tests/` — tests of the library.
