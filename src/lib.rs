//! Decoding of the UF2 firmware container format into a raw binary image,
//! together with the lowest target address claimed by each firmware family.

pub mod block;
pub mod decode;
pub mod laws;

pub use block::Uf2Error;
pub use decode::convert_from_uf2;
