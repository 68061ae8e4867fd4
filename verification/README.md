# toysh

A small interactive shell. The library (`src/`) holds the shell's logic with
Verus contracts: the line grammar (jobs separated by `&`, `;` or newline,
pipelines by `||`/`&&`, commands by `|`, words by white space), the shell
state (previous status, variables, built-in table), the decisions of the
built-ins `exit`, `cd` and `toyenv`, the plumbing plan of a pipeline, and the
prompt. `app/main.rs` is the program around it: it reads lines with
rustyline, forks, pipes and execs with nix, and prints.
