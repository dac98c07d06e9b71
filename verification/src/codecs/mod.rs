//! Column codecs: each one is a pure transformation with a proved inverse.
pub mod bitpack;
pub mod delta;
pub mod delta2;
pub mod dict;
pub mod frame_of_reference;
pub mod rle;
pub mod zigzag;
