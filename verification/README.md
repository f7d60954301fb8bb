# swarmnet

A peer-to-peer file sharing node. Peers find files by a UDP broadcast search, learn which
peer holds which pieces of a file, ask each piece of one of its holders over TCP, check
each piece against its SHA-1 hash, and put the file together once every piece is in.

- `src/` is the verified library: the text wire format (messages, descriptions of files,
  piece lines) with read-back laws, the answer to a search, the node's bookkeeping of found, downloading and
  seeded files, the sharing out of pieces among their holders, the tracking of awaited and
  arrived pieces, and the assembly of a download. Calls into `regex`, `sha1`, `hex` and
  `rand` stand behind small trusted wrappers in `matching.rs`, `digest.rs` and
  `selection.rs`.
- `app/` is the program around it: sockets, threads, files on disk and the command line.
- `tests/` runs the library on concrete values.
