# shell_core

A small interactive shell whose logic is a library verified with Verus.

- `src/` is the verified library:
  - `parse.rs` reads a command line into pipeline stages (quotes, escapes,
    pipes and redirection operators);
  - `enums.rs` holds the builtins, their argument rules and the shell's errors;
  - `commands.rs` holds what the builtins print and decide, and where the
    output of each pipeline stage goes;
  - `history.rs` works on the line editor's history (rustyline's `FileHistory`);
  - `completion.rs` computes the completion candidates for command names and paths;
  - `order.rs` and `text.rs` hold the string helpers (lexicographic order,
    trimming, decimal notation).
- `app/main.rs` is the program: the prompt, files, processes and pipes.
- `tests/` exercises the library on concrete command lines.
