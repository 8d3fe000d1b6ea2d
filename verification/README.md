# ramo

The core of a terminal picker for projects: a list of repositories, their
working trees and the agents that run in them. The library decides; the program
around it talks to git, the disk, the daemon and the screen.

- `src/` is the library, verified with Verus.
  - `text`, `number`, `path`: texts, decimal numbers and paths as sequences of
    characters.
  - `table`, `search`: maps held as rows, and searches in sequences.
  - `model`: entries, targets, settings, messages.
  - `cache`, `git`, `branch`, `worktree`: what git says and how long that
    counts, names of branches, and where working trees go.
  - `report`: which session a pane shows.
  - `help`, `edit`: the settings as they are shown, and edits of the user's file
    that leave all other lines alone.
  - `picker`, `picker_tree`, `picker_help`, `tick`: the picker itself.
  - `help_laws`, `edit_laws`, `picker_laws`: what holds of several operations
    together.
- `tests/` runs the library.
- `app/` drives it: processes, files, threads, serialisation, drawing.

Paths are texts. Two texts name the same path if they have the same components.
Times are nanoseconds on a clock that never runs backwards.

Four functions of the standard library are taken at their word: appending a
character to a `String`, the lower and upper case of a text, and the decoding of
bytes that need not be UTF-8.
