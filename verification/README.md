# flavours (verified core)

The decision-making core of the `flavours` base16 scheme manager, written in Verus and
proved against its contracts:

- `variant`: light/dark variants of scheme slugs, scheme families, and partners
  (same family, opposite variant), over `Seq<char>` specifications.
- `text`: character-level search, suffix tests and repeated collapsing of markers.
- `order`: lexicographic orders, a proof that they are strict total orders, and sorted
  listings without duplicates (with a proof that such a listing is unique).
- `slugs`: the names of found scheme files and their sorted listings.
- `operations`: the logic of the `families`, `info`, `list`, `partner` and `toggle`
  subcommands, from the scheme files found to what is printed.
- `color`: `NO_COLOR` handling, hex decoding and formatting, truecolor escapes.
- `commands`: default patterns, `apply --mode`, and colors of generated schemes.

`app/` holds the command-line side: clap, the file system, the environment and the
terminal, and `run`, which dispatches the subcommands. Finding scheme files, reading the
applied scheme and applying a scheme are behind the `SchemeStore` trait; the `current`,
`build`, `update`, `list --templates`, `generate` (the color extraction) and completions
subcommands are behind the `OtherCommands` trait. Neither trait has an implementation in
this crate, so `app/` is a library with no `main`: a program that supplies both traits
calls `run` with the parsed arguments.
