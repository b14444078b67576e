//! Layout and compositing for chat avatar images.
//!
//! Two independent pipelines live here. The quote card pipeline wraps a
//! quoted text into lines by measured glyph advances and prepares the card
//! canvas. The welcome banner pipeline crops an avatar to a disc and blends it
//! onto a background, scaling it down when it would not fit.
pub mod create_welcome;
pub mod error;
pub mod generate_phrase;
pub mod imaging;
pub mod layout;
pub mod mask;
pub mod metrics;
pub mod pixel;
pub mod text;

pub use create_welcome::combine_images;
pub use error::RenderError;
pub use metrics::{AdvanceTable, GlyphAdvance};
pub use pixel::{PixelBuffer, Raster, Rgba};
