# giteki

`giteki` looks up certified radio equipment (技適) through the public Web API of
Japan's Ministry of Internal Affairs and Communications and prints the records
as text tables, or saves a record's attachment as `giteki_<number>.pdf|zip` into an output
directory.

## Layout

- `src/` is the library, written in Verus. Every function there carries a
  `requires`/`ensures` contract, which Verus proves for all of them except
  the few calls into other crates in `external.rs` (and `String::push` in
  `text.rs`): their contracts are trusted, taken from those crates' source
  and documentation.
  - `cli.rs`: search and download options, their validation, and the API
    query parameters they become (page-size code, date forms).
  - `api.rs`: API records, `Content-Disposition` file names, quoted header
    values, numeric fields, error excerpts of response bodies.
  - `attachment.rs`: naming a downloaded attachment from the server's file
    name and the file's magic bytes.
  - `elec_wave.rs`: spacing and column alignment of the radio-wave rows.
  - `wrap.rs`, `text.rs`: normalization, measuring, padding and wrapping of
    text, over `Seq<char>` models of the standard string operations.
  - `display.rs`: records laid out as tables for a terminal width.
  - `external.rs`: the calls into percent-encoding, unicode-normalization,
    unicode-width, textwrap and regex, with the trusted contracts the rest
    relies on.
- `app/main.rs` is the program around it: argument parsing (clap), HTTP
  (reqwest, tokio), JSON (serde), the terminal size, and the file system.
- `tests/` runs the library on concrete values.

The `law_*` proof functions state properties that hold across calls or for
all inputs, such as reading back a quoted header value, the safety of saved
file names, the accepted date forms, the shape of a record's table and of
the printed search text, or the bounds of a table layout.
