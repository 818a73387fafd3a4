//! Lossy PNG quantization: the verified core of the encoder, the APNG
//! structure optimizer and the command-line rules.

pub mod apng;
pub mod apng_read;
pub mod cli;
pub mod error;
pub mod palette_quant;
pub mod pipeline;
pub mod quality;
pub mod quant;
pub mod robustness;
pub mod text;
