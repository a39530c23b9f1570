# ram

The verified core of a memory overview: how much memory the system has, how much
of it is used, and which programs use most of it.

- `src/` is the library, verified with Verus. It does no input or output: it takes
  what the system said, as bytes, text and return codes, and says what it means.
  - `snapshot`: the figures of a report.
  - `groups`: processes gathered under their names, and the choice of those to show.
  - `bytes`, `text`: reading bytes and text.
  - `procfs`: the formats of the files under `/proc` and `/sys`.
  - `layout`: the structures that the macOS kernel fills in.
  - `linux`, `macos`, `windows`: what each system reports, put together.
- `app/` asks the system and hands the answers to the library. Its caller says how
  names are cleaned up before they are shown.
- `tests/` runs the library on concrete values.

The proofs rest on three functions of the standard library that `text` wraps and
states: `String::from_utf8_lossy`, `std::str::from_utf8` and
`String::from_utf16_lossy`.
