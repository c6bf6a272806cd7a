# Matr project file manager

A desktop tool that keeps one folder per project under a root directory and links the output
that external tools (such as a RIP) write into other "relevant" directories to the project whose
source files share its base name (`photo-0.prt` belongs with `photo.jpg`).

The library in `src/` is verified with Verus:

- `naming` — base names, folder-name sanitizing, date prefixes, file stems and extensions,
  collision-free folder and file names.
- `scanner` — base names of a folder's source files, seed detection.
- `index` — the project index (settings, projects, home files, child files), reconciling it
  with scans, matching child files to projects, the ordered file lists.
- `sync` — recording folder walks and syncing the root directory (adoption, archiving, seed
  healing).
- `workflow` — what each worker command decides and records.
- `grouping` — grouping a project's files into images, iterations and other files.
- `ui` — the interface state, how messages update it, and the project page.
- `text`, `order`, `model`, `commands` — helpers, sorting orders, data types, messages.

`app/` holds the program around it: the iced interface, the worker thread, the SQLite store,
file-system walks and moves, watchers and thumbnails.
