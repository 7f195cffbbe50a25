# nxd

A hexadecimal dump format and the library that reads and writes it, verified with
Verus.

A dump line reads `offset: data | comment`. The offset is hexadecimal (with `+` or
`-` for one relative to the last absolute offset), the data is octets in pairs of
hexadecimal digits, grouped by whitespace, and everything after the first `|` is a
comment.

- `src/text.rs`: characters of a string, search, trimming, line splitting.
- `src/hex.rs`: hexadecimal digits read and written.
- `src/parse.rs`: a line's parts, the octets of its data, offsets.
- `src/dump.rs`: writing rows of octets as dump lines.
- `src/load.rs`: reading the octets of a whole dump back.
- `src/patch.rs`: applying a dump to a file, line by line or in memory.
- `src/laws.rs`: what holds of every dump (loading a dump gives back its octets,
  patching with a dump writes its octets at its offset, the separator column never
  moves left, and how lines and offsets are read).
- `app/`: the command-line program (`dump`, `load`, `edit`, `patch`), with the file,
  terminal and editor handling.
