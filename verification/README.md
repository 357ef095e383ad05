# r15_shell

A small client library for Stack Overflow chat rooms, verified with Verus,
and the command-line shell built on it.

- `src/` is the library. Every function there has a contract that Verus
  proves: reading and merging cookie text (`cookie`), interpreting shell
  input and deciding what the shell does (`shell`), reading chat messages out
  of a room transcript page (`transcript`), tracking which messages were
  already shown (`chat`), the room's endpoints and request headers (`room`),
  and where the cookie file lives (`config`). The public `law_*` proof
  functions state properties that hold across calls, such as that a saved
  cookie header reads back unchanged or that no message is shown twice.
- The calls into `regex`, `chrono`, `scraper`, `directories` and `reqwest`
  stand behind small trusted functions in `pattern`, `clock`, `dom`,
  `config` and `room`, each with a doc comment saying what its contract
  claims of the outside crate.
- `app/` is the program: terminal input and output, the cookie file, the
  HTTP requests and the background poller.
- `tests/` holds the tests, run against the compiled library.
