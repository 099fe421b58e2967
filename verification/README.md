# sam_core

SAM (Sparse API Monolith) lets a developer work in a large monorepo while
only the domains they need are on disk: git sparse checkout, team profiles,
a dependency engine (MonoGraph) and Finder "ghost" folders.

- `src/` is the library, verified with Verus. It holds the decisions of
  every command: which git arguments to pass and what git's output means,
  how a profile name is matched, what the workspace state becomes, which
  domains MonoGraph's answer (or the offline fallback) hydrates, which
  folders are created, hidden or unhidden, and how terminal output and
  tables are laid out. Laws relating several functions are public proof
  functions named `lemma_*`.
- `app/` is the `sam` program around it: argument parsing, files under
  `.sam/`, running git, HTTP calls to MonoGraph, the clock, Finder via
  `chflags` and `osascript`, and the C interface used by the macOS
  FileProvider extension.
- `tests/` runs the library on concrete inputs.
