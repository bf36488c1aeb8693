# jj-hunk-tool

Hunk-level operations on jj revisions, as a verified library.

- `src/` reads the git-style diff of a revision into hunks, picks hunks or lines of hunks, builds
  the patches that do or undo just those changes, and says which jj command to run with them. It
  also finds the ancestor that each hunk belongs into, and guides the review of what it found.
  Its behaviour is stated in contracts that Verus proves.
- `app/` runs jj, reads keys and files, and prints: the ordinary Rust around the library.
- `tests/` runs the library on concrete diffs.

## Modules

| Module | What it holds |
| --- | --- |
| `text` | searching, splitting, trimming and numbers in texts |
| `hunk`, `header` | hunks, their two sides, and their `@@` lines |
| `diff` | reading diffs |
| `ranges`, `selection` | line ranges, and what a selection leaves over |
| `surgeon` | what is relied on of the `git_surgeon` crate |
| `patch` | reversing hunks and building patches |
| `operate` | the jj commands for selected hunks, and the handler that jj calls |
| `jj` | what jj is asked, and what its replies say |
| `route`, `review`, `report`, `absorb` | absorbing hunks into ancestors |
| `terminal`, `display` | showing hunks |
| `laws`, `announce`, `roundtrip`, `reread`, `operate_laws`, `absorb_laws` | what holds of several of them together |
