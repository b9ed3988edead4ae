# Lasa

Lasa measures and logs the downtime of a Unix machine. It runs once at startup: it reads the
boot history that `last reboot -F` prints, asks `journalctl` when crashed sessions really
ended, keeps every stretch of downtime in a database grouped by year and month, and writes
uptime statistics for all time, the current year and the current month.

## Layout

- `src/` is the verified library:
  - `text.rs`: lines, words, substrings, byte slices and integer parsing over characters;
  - `parser.rs`: the `last reboot -F` output, the journal's time stamp, zone offsets;
  - `session.rs`: boot sessions and the journal probing of crashed ones;
  - `history.rs`: downtime events by year and month, their sums and how recording keeps them;
  - `database.rs`: building the database from the boot list and updating it;
  - `stats.rs`: downtime and elapsed time of each period;
  - `env.rs`: where the files live;
  - `error.rs`: errors and their messages;
  - `laws.rs`: properties that span several operations.
- `app/` runs the program: it calls the log tools, converts local times with the time zone,
  reads and writes the database files, and computes the uptime percentages.
- `tests/` holds the tests of the library.
