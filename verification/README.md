# agdatex

agdatex turns annotated Agda sources into Literate Agda. Every annotated part of a source becomes
the definition of a LaTeX macro that typesets this part, so that a paper can show code which Agda
has checked. Everything else goes into hidden `code` environments.

## Annotations

An annotation is a line comment that starts with `--!`.

| annotation   | meaning                                                             |
|--------------|---------------------------------------------------------------------|
| `--! Name`   | defines the macro `\Name`; the next empty line ends the definition |
| `--! Name {` | defines the macro `\Name`; `--! }` ends the definition             |
| `--!! Name`  | the same as `--! Name`, for use inside of a paragraph               |
| `--! Name>`  | opens a namespace: macros get `Name` in front of their names        |
| `--! <`      | closes the innermost namespace                                      |
| `--! [`      | starts a part that is compiled and not typeset                      |
| `--! ]`      | ends such a part                                                    |

## Layout

- `src/` is the library, written in Verus. All that agdatex decides and computes is there, with
  contracts.
  - `text`, `lines`, `span_str`, `str_lines`, `string_stack` and `bytes` deal with strings.
  - `ltx_write` puts LaTeX code together.
  - `command` reads annotations, `translation` follows them, and `diagnostic` tells what is wrong
    with them. `document` states what holds of a translation as a whole.
  - `source_hash`, `hash_writer` and `vectored` are for the files that are written and read back.
  - `driver` decides what is to be done with files, and `escape` is for messages.
- `app/` is the program around the library: arguments, files, and the calls of Agda.
- `tests/` holds the tests of the library.
