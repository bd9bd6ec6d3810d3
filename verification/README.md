# nalias

Nalias manages persistent command aliases for Windows. Each alias is stored in
`aliases.json` and exposed through a small generated `.cmd` wrapper in a
directory on the user `PATH`; running the wrapper runs the alias through
`cmd.exe`, PowerShell, or directly as a program.

## Layout

- `src/` is the verified library. Verus proves the contract of every function
  in it except a few trusted ones that call the standard library or chrono
  and whose contracts Verus takes as given: the `external_body` functions
  `io_error_text`, `parse_rfc3339`, `parse_error_text`, `from_utf16`,
  `utf16_error_text`, `utf8_text` and `main_separator`, and the `assume_specification`s of
  `char::is_whitespace` and `String::push`.
  - `text.rs`: character-level string helpers (trimming, splitting, joining,
    ASCII case folding) and their specifications.
  - `alias.rs`: aliases, shells and the alias-name rules.
  - `config.rs`: the sorted alias table, the configuration and its
    validation.
  - `executor.rs`: quoting for `cmd.exe` and PowerShell, the Microsoft C
    command-line splitter, the run stack that refuses recursion, and the
    execution plan of an alias.
  - `paths.rs`: the installation layout and edits to the user `PATH` value.
  - `platform.rs`: the portable side of the platform layer, decoding of
    registry text and the deferred-cleanup script.
  - `app.rs`: the decisions behind each command (what `add`, `edit`,
    `rename`, `list`, `show`, `repair` and `doctor` do and report).
  - `wrapper.rs`: the text of a generated wrapper, how a wrapper written by
    Nalias is recognised by its marker line, and when a file may be replaced.
  - `cli.rs`: the parsed command line.
  - `lite/`: Nalias Lite, which embeds each command in its wrapper: its
    arguments, wrapper text and the hexadecimal record that `list` reads
    back, its refusals, and its PATH handling.
- `app/` is the program around the library: argument parsing with clap, file
  and registry I/O, JSON with serde, and starting processes. Started under the
  name `nalias-lite`, the same executable runs Nalias Lite.
- `tests/` exercises the library on concrete values.

The `law_*` proof functions state properties that hold across operations,
for example that a lookup after `add` finds the added alias, that adding a
PATH entry twice changes nothing, that removing an entry just added restores
the PATH, that `add`, `edit` and `rename` keep a valid configuration valid,
that the run stack refuses to run an alias that is already running, and that
Nalias Lite's `list` reads back the command that `add` wrote.
