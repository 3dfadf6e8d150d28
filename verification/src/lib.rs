//! Verified core of a CPU-only OCR engine.

pub mod assets;
pub mod base64_text;
pub mod batch;
pub mod boxes;
pub mod codec;
pub mod components;
pub mod config;
pub mod crop;
pub mod ctc;
pub mod detect;
pub mod dict;
pub mod engine;
pub mod float;
pub mod levels;
pub mod mask;
pub mod plan;
pub mod postprocess;
pub mod recognize;
pub mod resize;
pub mod results;
pub mod run;
pub mod tensor;
pub mod values;
