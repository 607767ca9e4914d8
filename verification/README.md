# prompt_bom

Builds an SPDX 2.3 document that records which lines of a repository were
written by an AI coding session: it reads the session transcript (JSON
lines), finds the text that each file-editing tool call wrote in the current
files, joins it with `git blame`, and emits one SPDX file per path and one
snippet per attributed range.

## Layout

- `src/` — the library, verified with Verus.
  - `text`, `json`, `order`, `paths`, `hash`: strings, the JSON tree read
    from `serde_json`, the lexicographic order on keys, `std::path`-style
    path handling, and BLAKE3 digests.
  - `repos/jsonl_reader`: splitting a transcript into lines and parsing each.
  - `services/transcript`: turning transcript lines into attribution records.
  - `services/blame`: locating written text in the current files and
    summarising its blame.
  - `services/spdx_emit`: assembling the SPDX document.
  - `cli`: calendar arithmetic for timestamps and the document namespace.
- `app/` — the command-line program: argument parsing, file and git access,
  the clock, and JSON output of the document.
- `tests/` — tests of the library.
