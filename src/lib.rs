pub mod ring;
pub mod int_mod;
pub mod polynomial;
pub mod wrapping;
pub mod galois;
pub mod reed_solomon;

pub mod qr_types;
pub mod qr_errors;
pub mod encoder;
pub mod sizer;
pub mod generator;
pub mod error_correction;
pub mod cli;
pub mod painter;
pub mod bit_buffer;
