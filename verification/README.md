# samesame

A tool that finds repeated fragments of code across files. Each file is
reduced to one hash per trimmed line; every pair of files is aligned with a
patience diff into runs of identical (`Same`) and differing (`Diff`) lines,
and the `Same` runs of at least a minimum length are reported as text or JSON.

The library under `src/` is verified with Verus:

- `types`: ranges, runs, file descriptions and comparison results.
- `align`: what it means for runs to align two sequences, and run merging.
- `lcs`: longest common subsequences (Hirschberg's algorithm).
- `lis`: longest increasing runs of anchors (patience sorting).
- `diff`: the patience diff itself.
- `discovery`, `file`: which files are compared and how a glob pattern selects
  them; which files are read as text, and how their lines are hashed.
- `path_key`, `rolling_hash`: when two path strings name the same path, and
  the registry that numbers file paths.
- `cli`, `error`, `output`, `text`: argument checks, errors, and reports.

`app/` holds the command-line program: argument parsing, directory walking and
file reading, parallel comparison, JSON serialization and printing.
