# mrn

**M**ass **R**e-**n**amer: renames image files to `name-[WxH].ext`, where
`W` and `H` are the image's pixel dimensions. Existing resolution strings,
numeric noise and an earlier `-[WxH]` label are removed from the name first,
so running it again over renamed files leaves them alone. Where the target
name is taken, on disk or by another file of the same run, the least free
counter is added: `name-[WxH][1].ext`, `name-[WxH][2].ext`, and so on. A
planned target is never a path that exists or that another file of the run
takes; a file for which no counter up to the number of known paths gives a
free path is left alone.

## Layout

- `src/` — the verified library (Verus):
  - `text.rs` — decimal rendering, trimming of separator characters, ASCII
    case-insensitive comparison;
  - `noise.rs` — the grammar of the noise removed from file stems, with a
    verified scanner;
  - `clean.rs` — cleaning of a stem: label removal, noise removal and
    trimming, repeated until the name settles; a changed name never starts
    or ends with a separator;
  - `paths.rs` — the std path and case operations the planner relies on;
  - `model.rs` — dimensions, candidates, options, target mode, actions;
  - `plan.rs` — candidate selection, grouping by cleaned name, ordering by
    pixel count, free target paths, and the action each file receives;
  - `laws.rs` — properties of the whole: grouping partitions the
    candidates, sorting is a stable permutation, planned actions are sound
    and complete, output modes act on every file, targets are distinct and
    free, renamed files converge.
- `app/` — the command-line program: argument parsing, directory walking,
  image decoding, console output and the file operations themselves.
- `tests/` — tests of the library.

A dry run (`-d`) prints the planned actions and changes nothing.
