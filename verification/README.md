# fff

Find your Files Fast: a local file finder that indexes chosen folders, tags
files (by extension, and through a local language model), watches the folders
for changes and searches names, paths and tags.

- `src/` is the verified library:
  - `tagging`: the prompts and requests sent to the model server, and how its
    answer is read into tags;
  - `store`: how tags are normalised before storage, the search pattern, and
    the alternate `/private` form of a path;
  - `watch`: the queue of paths waiting for indexing, what each file-system
    event does to it, and when a waiting path is indexed;
  - `indexing`: the progress of an indexing run and the per-file decisions;
  - `browse`: the order of a directory listing and the checks made before a run;
  - `text`: character-level helpers (Unicode blanks, words, trimming, UTF-8 length).
- `app/` is the program around it: SQLite, HTTP, the file-system watcher, the
  folder walk and a command-line front end.
- `tests/` runs the library on concrete values.
