//! Conversion between PNG images and the density map formats of the GIANTS engine.

pub mod bits;
pub mod bytes;
pub mod cli;
pub mod cli_laws;
pub mod convert;
pub mod convert_laws;
pub mod error;
pub mod gdm_block;
pub mod gdm_block_format;
pub mod gdm_block_laws;
pub mod gdm_decode;
pub mod gdm_encode;
pub mod gdm_format;
pub mod gdm_laws;
pub mod gdm_read_format;
pub mod grid;
pub mod grle;
pub mod grle_laws;
pub mod i3d;
pub mod i3d_laws;
pub mod layer;
pub mod names;
pub mod names_laws;
pub mod png_file;
pub mod png_laws;
pub mod rle;
pub mod rle_laws;
pub mod text;
pub mod text_laws;
