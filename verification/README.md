# fen

A small git client for Windows, written in Rust and verified with Verus.

`src/` is the verified library: everything that decides or computes.

- `zlib/`: bit streams, canonical Huffman codes, the compressor (LZ77 with
  the fixed Huffman code of RFC 1951) and a full inflater with its
  checksum, and the proof that whatever the compressor writes, for any
  data, the inflater reads back as that data and its checksum. The
  Huffman trees built from code lengths are proved to decode each code to
  its symbol, for any code lengths below 64 that meet Kraft's
  inequality.
- `sha1.rs`: SHA-1 over byte strings, as words, bytes or hexadecimal.
- `indx.rs`: the index file (version 2), written sorted by name and read
  back with every check, and the proof that a read gives back a write.
- `objects.rs`, `tree.rs`, `actions.rs`: blobs, trees and commits as the
  bytes that are hashed and stored, and what `add` and `commit` write.
- `args.rs`, `cli.rs`: the command-line parser and the request it stands for.
- `glob.rs`, `search.rs`: wildcard matching and the steps of a walk through
  the directories that path patterns name.
- `os/`: paths, directory items, file times, error codes, the time zone.
- `toml.rs`, `strmap.rs`, `text.rs`: the configuration format (read, and
  laid out as text), maps keyed by strings, and text helpers.

`app/` is the program around it: the command line, the file system, the
clock and the console, through std (and the Windows API for the time zone
and file attributes). `tests/` runs the library on concrete values.
