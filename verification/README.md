# align

Aligns lines of text by matched characters or patterns, by inserting or
trimming a filler character so that every match lands in the same column.

```sh
printf 'foo = 1\nfoobar = 2\nx = 3\n' | align =
# foo    = 1
# foobar = 2
# x      = 3
```

## Layout

- `src/` — the library, verified with Verus:
  - `text.rs`: character sequences, runs of fill, UTF-8 offsets.
  - `engine.rs`: the two regex engines (`fancy_regex`, `regress`), match
    positions in characters, all non-overlapping matches of a line.
  - `parser.rs`: the argument string → tokens → patterns with their flags →
    the command the aligner runs.
  - `aligner.rs`: the alignment itself, specified by `process_model`, and the
    laws proved about it (lines kept, unmatched lines untouched, one column
    per slot, padding, repeat limit, deletion flags).
  - `config.rs`: the configuration and the table of per-pattern defaults
    (a map: no pattern text twice, setting one replaces it).
- `app/` — the command-line program: reading the configuration file, stdin
  and stdout.
- `tests/` — tests of the library on concrete inputs.

The display width of text, regex compilation and matching, regex escaping
and lower-casing are computed by the outside crates; the library's contracts
speak of them through named results.
