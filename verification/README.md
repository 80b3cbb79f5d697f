# opencc_cli

A command-line tool that converts Chinese text between Simplified and
Traditional scripts (14 modes), for text given on the command line, standard
input, files, or whole directories, with the `ferrous-opencc` engine.

Layout:

- `src/` — the library, verified with Verus:
  - `convert.rs`: modes and their names, the converter and its engine;
  - `cli.rs`: the rules a request follows, the choice of source and target,
    the extension list and the trimming of its pieces;
  - `path.rs`: paths as lists of components together with the bytes they
    were written with, their order, sorting, prefix, join, display, overlap
    of directories;
  - `input.rs`: what a directory walk does with each entry, the decoding of
    what is read, and the sorted list of files;
  - `walk.rs`: the recursive walk of a directory, driven by the listings of
    the directories it asks for;
  - `plan.rs`: where each converted file goes, and the checks before it;
  - `error.rs`: the errors and their messages.
- `app/main.rs` — the program: argument parsing, reading and writing files,
  listing the directories a walk asks for, in-place replacement through a
  temporary file.
- `tests/` — tests of the library.
