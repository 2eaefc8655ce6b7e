# zec

The logic of zec, a terminal editor, with its behaviour stated in contracts
and proved by Verus.

- `src/` is the library. What a prompt, a panel, a picker, a search, a
  replacement, a session, or a drawing does is a function of plain values
  here. Each executable function says in its `ensures` what it returns or
  changes; proof functions state what holds of several of them together.
- `src/features/` holds what the editor offers beside editing. A feature
  decides what is shown and what is asked of the editing core, and takes the
  answers.
- `src/probe.rs` and `src/probe/` hold what the headless probes insist on,
  their scripts, and their reports.
- Paths have slashes on every host: `src/paths.rs` makes such a path of the
  components that the host finds in one of its own.
- `app/` is the program around the library: the environment, files, processes,
  key events, widgets, and the traits that an editing core implements.
- `tests/` runs the library.

A few calls into other crates are trusted: styles and buffers of Ratatui, line
differences of `similar`, digests of `sha2`, JSON values of `serde_json`,
widths of `unicode-width`, and the wiping of `zeroize`. Each stands in a small
function whose documentation says what is taken on trust.
