# tng

A codec for TNG images, which are cut into tiles, and a reader for PPM and PAM images,
verified with Verus.

A TNG stream is a signature and a row of chunks in the manner of PNG: an image header
(`IHDR`), a tile grid header (`THDR`), one chunk per tile (`TDAT`), an index of the tile
sizes (`tIDX`) and an end chunk (`IEND`). Each tile names its own compressor and filter.

`src/` is the library.

| module | what it holds |
| --- | --- |
| `channel` | byte sources and sinks, and the record of the calls that are made to them |
| `bytes`, `crc`, `chunk` | big-endian numbers, checksums, chunks |
| `filter`, `codec`, `tile` | row filters, compressors, tile payloads |
| `region` | rectangles cut out of and pasted into bands of pixels |
| `format`, `encoder`, `decoder` | headers and handles, writing and reading streams |
| `roundtrip`, `pieces` | what was encoded is decoded to the same pixels; what damage changes |
| `runs` | when an image is encoded, what its bytes do not depend on, and which calls runs make |
| `text`, `ppmpam` | words and numbers, PPM and PAM images |
| `netpbm`, `rows` | what holds of reading headers and rows over several calls |
| `plan`, `readback` | tile grids, names and file headers, and that headers are read back |

The contracts of `tng_encoder_process` and `tng_decoder_process` speak of the record that a
`Channel` keeps: every call of the source and the sink, with what was asked for or offered and
what came of it. `reached` says that these calls were made, one after the other, and that they
are what the source and the sink went through. What came in, what was taken and what failed is
read off that record.

The compressors, the thread pool and a few functions of the standard library are called through
small functions whose contracts are taken on trust; their doc comments say what is claimed.

`app/` is the command line tool and the C interface.
