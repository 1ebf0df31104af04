//! A reader and writer for the FITS file format: headers, images, ASCII and
//! binary tables, checksums and tile-compressed images.
pub mod ascii_cells;
pub mod ascii_table;
pub mod bigendian;
pub mod bintable;
pub mod bitstream;
pub mod brief_headers;
pub mod card_layout;
pub mod card_reading;
pub mod casts;
pub mod cell_text;
pub mod checksum;
pub mod dither;
pub mod error;
pub mod file_reading;
pub mod fits;
pub mod float_images;
pub mod free_cards;
pub mod grid;
pub mod gzip;
pub mod hblocks;
pub mod hcoding;
pub mod hcompress;
pub mod hdu;
pub mod header;
pub mod header_order;
pub mod hforward;
pub mod htransform;
pub mod image_conv;
pub mod image_data;
pub mod io_utils;
pub mod plio;
pub mod keyword;
pub mod keyword_names;
pub mod number;
pub mod number_values;
pub mod quantized_reading;
pub mod rice;
pub mod row_cells;
pub mod text;
pub mod tile_compress;
pub mod tile_encode;
pub mod tile_reading;
pub mod tile_sources;
pub mod types;
pub mod wcs;
pub mod words;

pub use ascii_table::AsciiTable;
pub use bintable::{BinCellValue, BinColumn, BinColumnType, BinTable, BinTableBuilder};
pub use error::{Error, Result};
pub use fits::FitsFile;
pub use float_images::compress_image;
pub use hdu::{Hdu, HduData};
pub use header::Header;
pub use image_data::{ImageData, PixelData};
pub use keyword::{HeaderValue, Keyword};
pub use tile_compress::{CompressedImage, CompressionType, Quantize, TileGeometry};
pub use tile_encode::CompressOptions;
pub use types::Bitpix;
pub use wcs::Wcs;
