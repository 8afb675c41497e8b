# codetype

A terminal typing trainer that drills the real code of a Git repository:
it parses the tracked source files with tree-sitter, turns declarations
into typing Exercises, scores the typing, and can keep a `CODETYPE.md`
leaderboard.

The library under `src/` is written in Verus; every function carries a
contract that Verus proves.

- `text`, `paths` — character-level text and path primitives (`trim`,
  `lines`, joining, file extensions, `Path::join`).
- `extractor` — the extraction driver over a plain syntax tree, comment
  stripping, blank-line collapsing, dedent, indent detection; per-language
  vocabularies (`rust`, `swift`, `typescript`) and the `registry` that picks
  one. `extractor::laws` holds what every extraction satisfies.
- `engine` — the per-keystroke typing state machine (strict and lenient).
- `command` — the `:` palette's command parser and completion.
- `tour` — round-robin selection of the next Exercise across files.
- `stats` — per-Exercise counts and session totals, top mistakes.
- `scanner` — which tracked files are drilled.
- `scores` — the leaderboard document's layout, player identity, dates;
  `calendar` — why the day arithmetic follows the Gregorian calendar;
  `rows` — the leaderboard's records in (player, language) order.
- `screen` — which screen a key press leads to; `display`, `clock` — what
  the screens show.

`app/` is the `codetype` program: command-line parsing, the terminal UI,
running `git`, reading and writing files, and the floating-point speeds and
leaderboard records.
