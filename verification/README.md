# TerMa

A terminal manga and comic viewer. It shows the pages of a directory, or of
an archive (ZIP/CBZ, RAR/CBR, TAR), as single pages or two-page spreads,
through chafa (Sixel or Kitty graphics), Kitty's icat or WezTerm's imgcat,
and remembers where reading stopped.

## Layout

- `src/` is the library `terma`, verified with Verus: page pairing
  (`display`), file-name ordering and page selection (`names`), resume
  positions (`resume`), terminal detection, input and status text
  (`terminal`), the renderer's choice and order of display methods and its
  byte-level work (`renderer`), and the reading loop's navigation
  (`viewer`). `outside` holds the trusted calls into std and outside crates.
- `app/` is the program around it: arguments, the disk, archives, the
  terminal, the external tools, image decoding and the resume file.
- `tests/` runs the library on concrete inputs.
