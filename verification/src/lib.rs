//! Mosaic rendering of images out of 16×16 tiles.
//!
//! Every pixel of a picture is replaced by a whole tile: the one, out of a
//! palette of candidate tiles, whose colours look closest to the pixel. The
//! tile supplies the colour, the pixel keeps its transparency.
//!
//! Colours are compared in CIE L\*a\*b\* space with the CIEDE2000 difference.
//! The conversion and the difference come from the `lab` and `deltae` crates;
//! everything this crate decides on top of them is verified.

pub mod binary64;
pub mod color;
pub mod mosaic;
pub mod order;
pub mod pixel;
pub mod resolver;
pub mod signature;

pub use color::{distance, get_lab, to_distance};
pub use mosaic::{blockify, blockify_image, blockify_images, compose, RunningPixelCounter};
pub use order::{compare, path_before};
pub use pixel::{Image, Rgba};
pub use resolver::{closest_index, get_closest_match, select_nearest};
pub use signature::{
    block_signature,
    dedup,
    get_average_colors,
    mean_of_distances,
    rank,
    BlockSignature,
    Candidate,
    DistinctColorEntry,
    Palette,
};
