# minibuild

A small declarative build system: a Buildfile names rules with shell
commands, dependencies, input and output files and environment variables;
minibuild resolves the dependencies into a graph, runs independent rules in
parallel, cancels everything downstream of a failure, and skips rules whose
files have not changed since their last successful build.

The library in `src/` is verified with Verus. Each public function states
what it returns in its contract, over mathematical models of its data:

- `text` — whitespace, trimming, line and word splitting, decimal numbers,
  code-point order of strings.
- `parser` — the Buildfile language: statements of a text, their effect on a
  Buildfile, `$VAR` / `${VAR}` expansion, and the bookkeeping of `include`
  (cycles, files already read).
- `env` — environment variables, later settings winning.
- `graph` — the dependency graph: missing dependencies, cycles (three-colour
  depth-first search), the rules a target needs, and a topological order.
- `executor` — the scheduler as a state machine: which rule is queued, taken,
  running or finished, fail-fast cancellation, and one result per rule.
- `cache` — the incremental-build cache and its text format; storing a cache
  and reading it back gives the same entries.
- `cli` — command-line arguments.
- `suggest` — "did you mean" hints by edit distance.

`app/` is the command itself: it reads files, asks the file system for
modification times, runs commands with `sh -c` on worker threads and reports
each outcome back to the scheduler. It makes no decision of its own.
