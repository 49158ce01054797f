# Rehearsal planner

Users enter the times they are free; the planner finds the windows of time
when most of them can meet, ranked by attendance and then by start time.

- `src/` is the verified library (Verus):
  - `text.rs`: characters, splitting, decimal numbers, string order.
  - `domain.rs`: dates, slots, user-name rules, and the ranking of windows.
  - `persistence.rs`: the store's line format (`name|start|end`), reading and
    writing its text, adding a slot to a user; the repository trait.
  - `service.rs`: the service over a repository, date filters and limits,
    sorted user names.
  - `command.rs`: the commands of the prompt, the query a command asks for,
    and the lines that answer it.
- `app/` is the command-line program: the prompt loop and the file store.
- `tests/` runs the library on concrete cases.
