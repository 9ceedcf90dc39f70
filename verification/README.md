# qrdv

Encode any file into a sequence of QR-code frames (and from there a video), and
decode it back.

```
file → compress → encrypt → split into chunks → QR frames → MP4
MP4 → extract frames → decode QR → reassemble → decrypt → decompress → file
```

## Layout

- `src/` — the library, verified with Verus.
  - `protocol.rs`: the header and data frame wire formats, with roundtrip lemmas.
  - `bytes.rs`: little-endian integer encodings.
  - `encode.rs`: checksum, compress, encrypt, chunk and serialise a file, and
    draw its frames as QR codes; the contracts include that the frames decode
    back to the file, in any order, and that scans reading back the text drawn
    in each frame decode to the file.
  - `decode.rs`: read the header, collect and check data frames, reassemble,
    decrypt, decompress and verify; lemmas show that the order of the data
    frames, repeats and frames that are skipped do not change the outcome.
  - `qr.rs`: base64 + QR rendering into grayscale frames, base64-decoding what
    the scanner read, and the capacity search.
  - `crypto.rs`, `compress.rs`, `checksum.rs`: AES-256-GCM with Argon2id,
    DEFLATE and CRC32, through the `aes-gcm`, `argon2`, `rand`, `flate2` and
    `crc32fast` crates.
  - `video.rs`: reading ffprobe's stream description and cutting raw video
    output into frames.
  - `cli.rs`: the command-line settings as plain values.
- `app/` — the `qrdv` command: argument parsing, files, ffmpeg, output, and
  the QR scanner (`rqrr`), whose panics on odd images are caught there.
- `tests/` — tests of the library.

Calls into outside crates go through small trusted wrappers whose contracts
name what the crate computes; everything around them is proved.
