//! Layers of a map and how they are stored.

use vstd::prelude::*;

verus! {

/// The kind of a layer, which decides the format that stores it.
#[derive(Debug, Clone, Copy, PartialEq, Eq, Structural)]
pub enum LayerType {
    /// Stored as GRLE.
    InfoLayer,
    /// Stored as GDM.
    GdmLayer,
}

/// How a layer is stored.
#[derive(Debug, Clone, Copy, PartialEq, Eq)]
pub struct LayerParams {
    pub layer_type: LayerType,
    /// The number of bits of a pixel.
    pub num_channels: usize,
    /// Where the bits of a pixel are split into two ranges.
    pub compression_channels: Option<usize>,
    /// A number for the engine, stored in the header of a GDM file.
    pub type_index_channels: usize,
}

} // verus!
