//! BB84 quantum key distribution: photon preparation and measurement,
//! intercept-resend eavesdropping, basis sifting, error-rate estimation,
//! error correction and Toeplitz privacy amplification.

pub mod photon;
pub mod parallel;
pub mod rng;
pub mod chunks;
pub mod bits;
pub mod privacy_amplification;
pub mod text;
pub mod ranges;
pub mod qber;
pub mod channel;
pub mod alice;
pub mod bob;
pub mod eve;
pub mod laws;
pub mod layout;
pub mod pipeline;
pub mod toeplitz_law;
