# mg30_extract

Extracts the pictures and sounds from firmware files of the NUX MG-30, and packs changed pictures
back into them.

- `src/` is the library. It works on bytes in memory and is verified with
  [Verus](https://github.com/verus-lang/verus). Four small wrappers are trusted, not verified: their
  contracts say what `String::from_utf8_lossy`, the `sha2` crate's SHA-512, and two functions of the
  `image` crate return.
- `app/` is the command line tool around it: arguments, files, PNG and YAML.
- `tests/` runs the library on concrete values.

## The library

| module         | what it holds                                                                |
|----------------|------------------------------------------------------------------------------|
| `container`    | the NUX DFU header and section table                                         |
| `firmware`     | a firmware file with its BINA section at hand                                |
| `depacketize`  | the frames in the tail of the section, and where clean bytes stand in a file |
| `image_format` | recognising and decoding pictures                                            |
| `scanner`      | the search for pictures                                                      |
| `export`       | the manifest of pictures, and the names of their files                       |
| `waves`        | reading, finding and naming sounds                                           |
| `palette`      | reducing an image to a palette                                               |
| `rle`          | encoding palette indices as runs                                             |
| `repack`       | encoding pictures and writing them into a firmware file                      |
| `roundtrip`    | proofs that what is packed is found again, and what is found packs again     |
| `raster`       | images in memory, over the `image` crate                                     |
| `hash`         | SHA-512 digests as text, over the `sha2` crate                               |
| `numbers`      | offsets given as text                                                        |
| `text`         | numbers and raw bytes as text                                                |
| `error`        | the ways in which all this can fail                                          |

How long a sound lasts is kept as its number of frames and its sample rate. Seconds, and the
milliseconds in a file's name, are floating point and computed by the tool.
