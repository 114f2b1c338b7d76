# shortpath

Path aliases ("shortpaths") that can be nested inside one another with
`$name`, refer to environment variables with `${env:NAME}`, and be expanded
to full paths, folded back, sorted, checked, resolved and exported as shell
completions.

- `src/` is the library, verified with Verus. Its contracts are stated over
  the entries of each `IndexMap` (names and values, in order):
  - `strings`, `paths`: text and Unix path primitives (components, ordering,
    joining, parents) with the semantics of `str` and `std::path`;
  - `shortpaths`: the shortpath map and its operations (alias parsing,
    expansion, folding, sorting, add / remove / update, unreachable entries,
    automatic and manual resolution, listing), with the laws on them;
  - `builder`: building full paths and preparing the configuration text;
  - `helpers`, `env`, `config`, `export`, `app`, `consts`: prompts' answers,
    environment filters, configuration paths, shell exporters, command values;
  - `sp`: the typed shortpaths (plain, alias and environment paths with their
    dependencies).
- `app/` is the command line program: argument parsing, logging, reading
  and writing the configuration, the file system and the terminal.
- `tests/` runs the library on concrete values.
