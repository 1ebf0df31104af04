# fitskit

A reader and writer for FITS (Flexible Image Transport System) files, the standard
format of astronomical data, verified with Verus.

- Headers: fixed-format and free-format cards, long strings over `CONTINUE` cards.
- Images of all `BITPIX` types, as primary HDU or `IMAGE` extension.
- ASCII tables and binary tables, with variable-length arrays.
- `CHECKSUM`/`DATASUM` keywords.
- Tile-compressed images: `RICE_1`, `GZIP_1`, `GZIP_2`, `PLIO_1`, `HCOMPRESS_1` and
  `NOCOMPRESS` are read; `RICE_1`, `GZIP_1` and `GZIP_2` are written.
- The keywords of a two-axis celestial World Coordinate System.
- Gray images of the `image` crate.

## Layout

- `src/` is the library. Every function states what it returns, and Verus proves it. The
  modules `card_reading`, `row_cells`, `file_reading`, `tile_reading` and
  `quantized_reading` prove that headers, table cells, files and compressed images are
  read as they were written.
- `tests/` runs the library.
- `app/` is what stands around it: files, floating-point arithmetic (scaled pixels,
  quantized images, spherical projections) and gray levels of scaled images.

## Floating point

The library computes with integers only. Floating-point pixels and table cells are bit
patterns (`u32`, `u64`); a floating-point number of a header is the decimal text that
spells it (`number::Real`) and is written as it is held. Quantized images take the
arithmetic as a function: `CompressedImage::decompress` and `compress_image` decide what
becomes of each pixel, and `app/` scales and rounds. `CompressedImage::decompress_exact` and
`tile_encode::compress_exact` are for images that need no such arithmetic.

## What is trusted

DEFLATE comes from `miniz_oxide`, gray images come from `image`, and `String::push`,
`str::from_utf8`, `str::to_uppercase` and the `Debug` form of a `str` from the standard
library. What is claimed of them stands beside each in `gzip`, `image_conv`, `text` and
`cell_text`.
