# cli_toolkit

A small collection of command-line tools whose logic is verified with Verus.

- `src/` is the verified library:
  - `validation`: integer ranges and integer-string rules, overlap detection,
    configurations and the input validation engine;
  - `json`: the JSON-like text form of configurations and its reader;
    `json_roundtrip` proves that reading back a written configuration gives
    the configuration, whenever its name holds no double quote or backslash;
  - `toml_field`: setting a field in a TOML file and finding the package
    version in a Cargo manifest;
  - `csv_clean`: joining CSV records that span several lines;
  - `tui`: the decisions of the terminal interfaces (modal directory viewer,
    line input buffers, three-part display commands);
  - `gpg`: file names and errors of the GPG tool;
  - `text`, `number`: character-level text operations and decimal
    formatting and parsing, with exact specifications.
- `tests/` runs the library on concrete values.
- `app/` is the program around the library: terminal and file I/O, threads,
  and the `gpg` processes. Run it as `cli_toolkit <tool> [arguments]`.
