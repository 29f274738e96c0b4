# rem

A local-first Markdown memory for humans and agents.

Memories are Markdown files with front matter in a Git-backed vault. Lines that
begin with `@fact` state facts with a time; facts that exclude each other, and
memories that say the same, are conflicts that can be accepted or resolved. All
changes to a vault are transactions: they are committed whole or undone.

- `src/` is the library: what files, rows, answers and keys mean and what is to
  be done about them. Its contracts are verified by Verus. The modules whose
  names end in `_laws`, and the functions under `Laws` elsewhere, state what
  holds across functions.
- `app/` is the program: the command line, the files, Git, the SQLite index and
  the settings screen. It reads and writes; the library decides.
- `tests/` runs the library on examples.
