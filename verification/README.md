# playlist-bridge

Converts audio playlists between M3U/M3U8, PLS and XSPF. The readers,
writers, format detection, byte decoding and path rebasing are a Verus
library whose contracts state exactly what each function returns; `app/`
is the command-line program around it (arguments, reading and writing
files).

## Layout

- `src/text.rs`, `src/num.rs`: characters, trimming, searching, and integer
  reading and writing with the rules of Rust's `parse` and `Display`.
- `src/paths.rs`: lexical path components, normalization (a `..` cancels
  only a name before it) and relative paths.
- `src/playlist.rs`: tracks, formats, byte decoding, the M3U, PLS and XSPF
  readers and writers, `dir_of` and `rebase_path`.
- `src/xspf.rs`: XML escaping and entity decoding, percent-decoding,
  element search.
- `src/cli.rs`: command-line argument parsing.
- `src/convert.rs`: a whole conversion: picking each side's format, reading,
  rebasing every track from the input's directory to the output's, writing.
- `src/round_trip.rs`, `src/xspf_round_trip.rs`, `src/resolve.rs`: proofs
  of what holds across functions: writing then reading a playlist gives its
  tracks back (M3U, PLS, XSPF, and conversions between M3U and PLS), Windows
  line endings read like Unix ones, PLS line order does not matter, an XSPF
  location reads back as the path it was written for, and a rebased path
  still names the same file.
