# npb

`npb` shows what a change to nixpkgs does to the outcome of its builds. It evaluates a base and
a head, finds the derivations that differ, builds those whose outcome is not known yet, and
prints a report in Markdown. Every outcome it learns is kept in an append-only log, so that
running it again over the same change is instant.

## Layout

- `src/` is the library: the decisions of the command, verified with
  [Verus](https://github.com/verus-lang/verus). Every function states in its contract what it
  returns or changes. Public proof functions, whose names begin with `lemma_`, state what holds
  across functions: that no shard of work is lost, that a budget is kept by evicting the least
  recently used evaluations, that what is read of the store is what was written.
- `app/` is the program around it: arguments, `git`, `nix`, SQLite, the network and the terminal.
- `tests/` run the library on concrete values.

## What is not proved

`src/outside.rs` declares what the library takes from other crates and from the standard library,
and says of each item what is claimed of it. Text that another crate computes, such as a line cut
to the width of a terminal, is given a name there, and contracts speak of that name.
