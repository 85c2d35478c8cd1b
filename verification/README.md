# jlv

A viewer for JSON Lines files: the first lines, a range of lines, the last
lines, random samples, and a line count, printed as they are or
pretty-printed as JSON.

- `src/` is the verified library. `cli` is the command-line grammar;
  `lines` selects ranges and numbers lines; `tail` scans a file backwards for
  its last lines; `locate` finds the line that covers a byte offset; `sample`
  draws random samples; `json` parses entries (through serde_json),
  shortens long strings and pretty-prints them; `render` makes the printed
  text; `text` holds the string helpers.
- `app/main.rs` is the program: it reads the arguments and the file, and
  prints. The decisions it needs are asked of the library, step by step.
- `tests/` run the library on lines and bytes held in memory; the functions
  over a whole file's bytes (`tail::read_tail`, `sample::read_random_fast`,
  `lines::count_lines`, `locate::read_line_covering_offset`) take the same steps as the program.
