//! Core of a raster-image tone-mapping tool: luma conversion under several
//! policies, multi-anchor intensity quantization, isolated-pixel denoising,
//! and a compact textual codec for the anchor metadata. The surrounding UI
//! and file handling live outside this crate and exchange plain RGBA buffers
//! and metadata text with it.

pub mod buffer;
pub mod luma;
pub mod quantize;
pub mod denoise;
pub mod processor;
pub mod metadata;
