# forkstack

Stacked pull requests inside a fork of one's own: each commit of a local stack becomes
a branch and a pull request onto the commit below it. A commit's identity stands in its
message, so that it keeps its pull request when the stack is reordered or rewritten.

- `src/` is the library: planning, publishing, fetching, the graph of commits and its
  previews, moves, and the state of the interactive view. Every function in it is
  verified with Verus against the contract in its header. What is asked of Git, of the
  GitHub CLI and of the terminal is said as plain values.
- `app/` is the program around it: arguments, processes, repositories, the pager and the
  terminal.
- `tests/` runs the library on concrete stacks and graphs.

What holds of the library as a whole is stated by the proof functions whose names begin
with `law_`. What is taken on trust of other crates is marked `external_body` or
`assume_specification`, with a comment that says what is claimed.
