# embark

A verified library for packing files into compressed, optionally sealed
entries, and for reading them back.

- `src/` is the library, written in Verus. Each public function carries a
  contract that Verus proves: the entry format (`entry`, `varint`), the
  codec dispatch and the choice of the smallest codec (`dispatch`, `best`,
  `pack`), the codecs written here (`store`, `snappy`, `lzma`), the pieces
  of a Zstandard encoder (`zstd`: bit writer, block and frame headers,
  FSE and Huffman tables and streams, sequence codes, match finder), the
  derive configuration and folder filters (`embed`, `glob`, `args`), and
  the build-time key obfuscation (`obfuscate`).
- DEFLATE, LZ4, Zstandard frames, ChaCha20-Poly1305, AES-256-GCM and the
  operating system generator come from outside crates. Each call stands
  behind a small trusted wrapper whose doc comment says what its contract
  claims of the crate.
- `tests/` exercises the library through its public interface.
- `app/` is the procedural-macro front end: token parsing, file reading
  and code generation, which call the library for every decision.
