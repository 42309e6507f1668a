# codex_continuity

A Windows utility that keeps local Codex CLI sessions usable after switching API
providers: it lists the sessions under `%USERPROFILE%\.codex`, shows their
details, diagnoses `/resume` risks, prints the native `codex resume` command,
exports a restore prompt, and moves session and agent metadata to the current
provider (with a backup).

Layout:

- `src/` is the library, verified with Verus. Every function states what it
  returns in terms of spec functions over `Seq<char>`:
  - `text`: whitespace, trimming, searching, splitting into words and lines.
  - `json`: the line-oriented JSON lookups of session logs, string decoding and
    quoting, and rewriting one payload value.
  - `redact`: hiding keys and secrets in displayed text.
  - `session`: the summary of one session log.
  - `catalog`: the session index, log file names, and which sessions are listed
    in which order.
  - `config`: `config.toml`, agent files and the rewriting of an agent's
    provider line.
  - `sync`: the provider sync of sessions and agents and its report.
  - `render`: the texts shown in the window and the exported prompt.
  - `ui`: command decoding, progress line, search filter and selection.
  Laws that span functions are public proof functions named `law_*`.
- `app/` is the program: the Win32 window and the file system. It walks the
  directories (including the order in which log paths are visited, which
  decides which archived copy of a session is dropped), reads files, and
  carries out the backup and write actions that the library's sync steps
  return.
- `tests/` runs the library on concrete values.
