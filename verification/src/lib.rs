//! An extended Hamming(16,11) forward-error-correction codec with
//! single-error-correction / double-error-detection (SECDED) semantics,
//! together with a random bit-error injector and the pipeline that
//! encodes a message, corrupts it with an error mask, and decodes it back.

pub mod code;
pub mod word;
pub mod codec;
pub mod mask;
pub mod pipeline;
