//! Low-rank image compression hidden in the least-significant bits of a
//! carrier image: fixed-point factor encoding, a bit-plane codec, and an
//! incrementally updated rank-k reconstruction.
pub mod approx;
pub mod lsb;
pub mod quantize;
pub mod reconstruct;
