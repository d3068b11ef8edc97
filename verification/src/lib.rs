//! Background removal: the verified core of the image pipeline.
//!
//! The library holds the integer and byte-level logic of the pipeline:
//! the size limits applied to decoded images, the cleanup of small
//! connected islands in a thresholded mask, the neighbourhoods that the
//! edge smoothing samples, the final RGBA composition, the decisions taken
//! around the segmentation model, and the texts shown to the user.

pub mod error;
pub mod imaging;
pub mod inference;
pub mod islands;
pub mod pipeline;
pub mod smoothing;
pub mod text;

pub use error::{AppError, AppResult};
pub use islands::remove_small_islands;
pub use pipeline::{uuid_like_suffix, RemovalResult};
