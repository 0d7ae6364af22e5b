//! Verified core of a Kindle e-ink "meme board" and frame player.
//!
//! The library holds the logic of the program: rendering packed 1-bit frames
//! and grayscale images into a linear framebuffer, the e-ink refresh request,
//! frame pacing, the text exchanged with the meme server and the decision of
//! when the displayed image must be replaced. The program around it (device
//! access, processes, sleeping) lives in `app/`.

pub mod chunks;
pub mod decimal;
pub mod packed;
pub mod raster;
pub mod update;
pub mod pacing;
pub mod picture;
pub mod power;
pub mod status;
mod text;
