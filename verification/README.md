# liz

Liz (LuaWizard) is a command that runs Lua scripts with a `Liz` global table of
functions for forms, texts, paths, processes and the network. This crate holds
the logic of those functions as a library verified with Verus, and the command
around it.

## Layout

- `src/` — the verified library:
  - `liz_forms`: lists of texts ("forms") that scripts edit, search and rebuild;
  - `liz_parse`: cutting forms into blocks (white space, punctuation, quotes,
    numbers after a starter character, regex matches);
  - `liz_group`: joining neighbouring forms that pairs of tests accept;
  - `liz_texts`: text operations (trim, find, split, replace, words, found
    entries of text searches);
  - `liz_paths`: path parts, names, extensions, and absolute, relative,
    parent and joined paths, given the working directory, and the names
    that a listing by extension keeps;
  - `liz_codes`: script paths, fetched script locations, git status, the
    steps of the search for a git root, script code to evaluate;
  - `liz_slabs`: runs of spaces and of other characters;
  - `liz_debug`: error values and debug messages;
  - `liz_logic`, `liz_regex`, `chars`: senses of tests, regular expressions
    (through the `regex` crate) and character classes.
- `tests/` — tests of the library.
- `app/` — the `liz` command: argument handling, the Lua lanes (through
  `rlua`), the file system, processes, threads, times and network requests.

Each public function of the library states its result in its contract, over
spec functions on sequences of characters; the laws of the library (for
instance that the parts of a path join back into the path, or that parsing
and grouping keep the text of the forms) are public proof functions whose
names start with `law_`.
