//! Decoding of Westwood SHP sprite files and PAL palettes into RGBA frames.
//!
//! A SHP file holds a small header, a table of 24-byte frame headers and the
//! pixel data of each frame, stored either raw or run-length encoded.  Each
//! pixel is an index into a 256-colour palette; index 0 is transparent.
//! Every parsing step is a function on bytes whose contract states its result
//! over the specification functions defined next to it.

pub mod bytes;
pub mod config;
pub mod error;
pub mod output_name;
pub mod palette;
pub mod selection;
pub mod shp_frame;
pub mod shp_header;
pub mod shp_reader;
