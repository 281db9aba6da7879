# topfs

A live top-N of the biggest files and directories of a local or remote
(`hdfs://`, `abfs://`) file system, shown as a tree.

- `src/` is the library, verified with Verus: size and date formatting,
  ANSI colouring and truncation, parsing `hdfs dfs -ls -R` lines, crediting
  sizes to ancestors, choosing the largest entries, building and drawing the
  tree, and the Slack message body. Each public function states its result
  in its contract; `pub proof fn`s state the laws that span functions.
- `app/main.rs` is the program: command line, directory walking, the `hdfs`
  process, the terminal and the webhook. It hands the library plain values.
- `tests/` runs the library on concrete values.
