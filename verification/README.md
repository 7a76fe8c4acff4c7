# gitr

A compact git commit graph viewer. The logic that decides what the window
shows is a library verified with Verus; the window itself is a thin program
around it.

- `src/` — the verified library:
  - `lanes.rs`: the lane layout of the graph (which column each commit and
    each edge takes, how lanes are reused), with its laws;
  - `commit.rs`: reference pills, the rows of the graph, the graph width,
    commit times;
  - `diff.rs`: the side-by-side and the plain diff views;
  - `status.rs`: `git status --porcelain` and file lists, the working-tree
    row;
  - `search.rs`: finding the next matching commit;
  - `cli.rs`, `commands.rs`, `watch.rs`, `config.rs`, `text.rs`: the command
    line, the git arguments, change detection, lane colours, text helpers.
- `tests/` — tests of the library on concrete values.
- `app/` — the program: reading the repository with git2, running git, and
  painting with egui.
