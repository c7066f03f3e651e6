# rusty-broom

Frees disk space by deleting the build artifacts of projects that nobody has
worked on for a long time: `target`, `node_modules`, `.venv`, `build`, and so on.

The logic is a verified library; the program around it reads the disk, runs git
and draws the screen.

- `src/` is the library. Everything it decides is stated in contracts and proved
  with Verus: which directories are projects and how old they are (`scan`, `glob`),
  what git lets go (`gitignore`, `engine`), how much space it takes (`size`), what
  may be deleted (`clean`), how durations and sizes are read and written
  (`humantime`, `fmt`), what is shown (`report`, `tui`) and what the keys do
  (`tui::app`). `safety` holds what the parts promise together.
- `tests/` runs the library on concrete values.
- `app/` is the command-line program: arguments, the configuration file, the file
  system, threads, the terminal.

Where the work alternates between the disk and a decision, the library offers a
state machine: `pending` says what is to be found out or done next, and another
method takes what came of it. No path is handed out for deletion that does not lie
strictly inside its project, none that lies behind a symbolic link, and none that
git does not report as ignored once git has answered. `pipeline` holds what a whole
run has announced, in whatever order its threads take turns.

Paths compare by their components and are shown as they were given. They are those
of Unix: `/` and nothing else separates components.
