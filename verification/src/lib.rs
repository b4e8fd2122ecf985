//! From 81 camera frames to one looping animated bitmap: a quantizer that
//! gives the frames one shared palette, an encoder that writes the byte
//! stream, and a validator that inspects such a stream.

pub mod animation;
pub mod bitstream;
pub mod cube;
pub mod encoder;
pub mod error;
pub mod frame;
pub mod kmeans;
pub mod lct;
pub mod lzw;
pub mod m2down;
pub mod mapping;
pub mod metrics;
pub mod oklab;
pub mod pipeline;
pub mod preview;
pub mod quantizer;
pub mod resize;
pub mod rng;
pub mod sample;
pub mod session;
pub mod stream;
pub mod validator;
