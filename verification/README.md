# exfat

A reader and a writer of exFAT volumes, verified with Verus.

`format` turns a tree of directories and files into the bytes of a volume; `Reader` opens the
bytes of any exFAT volume, lists its directories, finds its files, reads them, walks the whole
tree, and checks a volume against itself. Every function of the library states what it returns
or changes, and Verus proves that it does and that it never panics.

## Layout

- `src/` is the library.
  - `bytes`, `number`, `text`, `unicode`: little-endian fields, arithmetic, messages and UTF-16.
  - `boot`, `dirent`, `csum`, `time`, `table`, `upcase`, `upcase_table`: the structures of the
    format and the checksums over them.
  - `geometry`, `recover`, `detect`: where everything on a volume is, from its size or from its
    boot sector, and whether bytes are a volume at all.
  - `source`, `path`, `name`, `label`, `sort`, `fidelity`, `place`, `model`, `allocate`: from a
    source to the tree a volume holds, the clusters it takes, and what is lost on the way.
  - `set`, `image`, `options`, `materialize`: from that tree to bytes.
  - `volume`, `slots`, `open`, `reader`, `entryset`, `node`, `parse`, `lookup`, `contents`,
    `walk`, `scan`, `tree`: from bytes back to directories, files and findings.
  - `finding`, `deviation`, `policy`, `error`, `read_error`: what can be wrong with a volume, and
    how much of it is refused.
  - `written`, `fresh`, `freshboot`, `reread`, `relist`, `reopen`, `soundness`, `placed`,
    `roundtrip`, `rescan`, `clean`, `rewalk`, `losses`, `strictness`, `bounded`: what holds of
    the library as a whole. What is formatted opens, reads back, is walked as it was given and
    has nothing wrong with it; nothing is lost but what was accepted; a check keeps no more than
    it takes on.
  - `ext`: the options the ext family's volumes are made with.
- `tests/` runs the library.
- `app/` moves volumes in and out of files and streams, and gives the errors and reports the
  traits other code expects.

## What is believed

Three functions of the standard library have contracts that are not proved: `String::push` and
what `{:?}` writes of a text, in `src/text.rs`, and `core::str::from_utf8`, in `src/unicode.rs`.
