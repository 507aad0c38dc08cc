# kak-ansi-filter

A filter for text that was made for a terminal, to be shown in a Kakoune buffer.
ANSI escapes (SGR, other CSI, OSC, character sets) and overstrikes (`x BACKSPACE x`)
are stripped, and the colours and attributes that they asked for come out as
range-specs, `L.C,L.C|face`, over the text that is left.

    kak-ansi-filter [-range L.C,L.C] < input > text 2> commands

`text` is the text that is left. `commands` holds one Kakoune command: a
`set-option` with the range-specs, or a `fail` with what went wrong. With `-range`
the first character stands at the earlier one of the two coordinates.

- `src/` is the library, verified with Verus. `model.rs` says what the filter does,
  `filter.rs` does it, `laws.rs` holds what is proved of every input; colours and
  SGR codes are in `face.rs` and `sgr.rs`, coordinates in `coord.rs`, range-specs in
  `runs.rs`, UTF-8 in `decode.rs`, the command line in `args.rs`, and the commands
  in `command.rs`.
- `app/` is the program around it.
- `tests/` runs the library.
