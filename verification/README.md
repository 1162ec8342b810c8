# radar

A Counter-Strike 2 radar toolkit whose core is verified with Verus.

`src/` is the verified library:

- `vpk` parses VPK archive directories (header, directory tree, checksums),
  looks up files, names archive files, plans reads and seeks in packed
  files, and checks MD5 and CRC-32 checksums.
- `dumper` parses map overview files and decides the names under which
  overviews and radar images are extracted.
- `memory` parses byte signatures, scans module bytes for them, resolves
  instruction-relative addresses and follows pointer chains.
- `reader` holds the reader's configuration and the two scans that read
  players and the map name out of the game, one memory read at a time.
- `serialization` writes the compact binary form of the radar state.
- `website` holds the website's settings and map-name rules.
- `text` holds the string helpers the others share.

`app/` is the program around it: Windows process access, file and process
I/O, configuration files, the web server, and the conversions between
floating-point values and the library's integer or text fields.
