# m3u8_download

The verified core of an HLS (M3U8) downloader, written in Verus.

`src/` is the library. Its verified functions carry contracts that Verus
proves. A few small functions marked `#[verifier::external_body]` make the
calls into other crates (AES-128-CBC decryption, header-name and
header-value checks, the `HashMap` walk, the random retry jitter, the local
date, and collecting characters into a `String`); their contracts are
trusted, not proved, and each one's doc comment says what it claims of the
function it calls.

- `text`: character-sequence primitives (trimming, splitting, `lines`,
  decimal numbers) tied to spec functions that state their meaning;
- `hex`: hexadecimal IV strings to bytes;
- `key_line`: the `#EXT-X-KEY` tag;
- `url`: resolving playlist URLs against the playlist's own URL;
- `validate`: checks on a playlist response;
- `playlist`: choosing a variant of a master playlist, reading a media
  playlist into key and segment steps, and giving each segment its key;
- `segment`: checking a received segment and AES-128 decryption;
- `headers`: which custom request headers are sent. The library keeps them
  as a list of (name, value) texts with each name once, in place of the
  `reqwest` `HeaderMap` whose entries are outside types; the caller builds
  the `HeaderMap` from that list;
- `resume`: the manifest of finished segments, retries and rounds;
- `logs`: daily log file names, rotation and expiry.

`app/` holds the I/O around it: HTTP requests, files, tasks, and logging.
`tests/` runs the library on concrete inputs.
