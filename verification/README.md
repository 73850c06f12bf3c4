# wt

A git worktree manager (`worktree`, used through a `wt` shell function) whose
logic is a library verified with Verus.

- `src/` is the verified library: reading `git worktree list --porcelain`
  output, naming worktrees (including the ones Codex manages), matching names,
  planning creations and removals, reading hints from Codex's state database,
  interpreting the picker's answer, and choosing the shell function. Paths are
  held as text and compared component by component. `src/laws.rs` states and
  proves the properties that hold across these operations.
- `tests/` runs the library on concrete inputs.
- `app/` is the program: argument parsing, the `git`, `fzf` and `sqlite3`
  calls, and file access, around the library.
