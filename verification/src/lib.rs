//! Reconstruction of time-domain signals from sparse, frequency-domain
//! compressed captures: record decoding, band setup, window assembly,
//! routing of windows to bands, and serialization of the output samples.

pub mod bins;
pub mod window;
pub mod record;
pub mod blocking;
pub mod timelog;
pub mod sink;
pub mod writer;
pub mod assembler;
pub mod channel;
pub mod stop;
pub mod input;
pub mod band_decompress;
