# nef-compactor

Lossless compression for Nikon NEF files. `.CNEF` files decompress back to
byte-identical NEFs.

| Chunk | Strategy |
|---|---|
| Raw strip in Nikon's format | Nikon lossless decode, Bayer deinterleave, JPEG XL lossless |
| Uncompressed raw strip | Unpack, JPEG XL lossless |
| Embedded JPEGs | JPEG XL recompression (bit-perfect) |
| Everything else | zstd |

`src/` is the library, verified with Verus: the TIFF and NEF reader, the raw
codecs, the container, and the decisions of the command line tool. That a
compressed file is given back byte for byte is proved in `src/lossless.rs`, given
that JPEG XL and zstd give back what they were given.

`app/` is the command line tool: files, threads, printing and the calls into
libjxl. `tests/` holds the tests.

## Usage

```
# Preview compression ratios without writing anything
nef-compactor compress --dry-run -e3 -j8 ~/Photos/

# Compress a directory (8 threads, effort 3), and remove the originals
nef-compactor compress -e3 -j8 --rm ~/Photos/

# Decompress back to the NEF
nef-compactor decompress photo.CNEF

# Inspect the structure of a NEF
nef-compactor info photo.NEF
```
