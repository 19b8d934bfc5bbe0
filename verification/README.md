# mdlive

A live markdown viewer: point it at a file or a directory and read the
rendered markdown in a browser, reloaded whenever a file changes.

The crate is in two parts.

- `src/` is the library, verified with Verus. It holds the rules of the
  server: Unix path handling and which files are served (`paths`), the
  tracked files and their rendered HTML (`state`), the navigation tree
  (`tree`), what file-system events mean (`watcher`), the checks and answers
  of the file API and the edit history (`api`), the pages and their template
  values (`pages`, `template`), static assets (`static_files`), workspace
  switching and browsing (`workspace`), the recent-workspace list and the
  settings path (`config`), addresses and the port search (`host`), the
  command line's hand-over request and launch agent (`cli`), and the desktop
  menu logic (`desktop`). `order` holds the name order and the stable sorts the
  others use, `text` small string helpers.
- `app/` is the program around it: the command line, the HTTP server and its
  handlers, the file watcher, disk access and the settings file. It reads what
  the library needs, calls it, and carries out what it answers.

Tests are under `tests/`.
