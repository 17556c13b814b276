# picker_hook

A Windows hook that replaces the system file-open dialog with a fuzzy file
picker. The verified library (`src/`, checked with Verus) holds the logic:

- `tree`: the directory tree shown to the picker, kept sorted by name, and
  its YAML rendering; `tree_laws` proves properties across operations
  (insertion order of directories does not matter, adding one twice is like
  adding it once; a listing of files leaves out directories without files,
  a listing of folders lists every directory).
- `walk`: building the tree from the Everything CLI's output or from the
  entries of a directory walk; locating the Everything CLI.
- `filter`: file-type filter patterns (`*.txt;*.md`): matching a path and
  turning a pattern into an Everything search term.
- `dialog`: the state behind the replacement dialog.
- `events`: the decisions of the DLL entry point, the `CoCreateInstance`
  detour, the injector's tray window, and reading the picker's answer.
- `text`, `paths`: string handling and the `std::path` calls it relies on.

`app/` is the Windows glue around the library (COM interfaces, the detour,
process and file-system access, the injector and a manual trigger); it only
builds for Windows targets.
