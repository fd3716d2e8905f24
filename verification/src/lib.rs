//! Exact brute-force fraud scoring over quantised reference vectors.

pub mod accuracy;
pub mod binary32;
pub mod closeness;
pub mod decision;
pub mod distance;
pub mod exactness;
pub mod framing;
pub mod generate;
pub mod http;
pub mod labels;
pub mod latency;
pub mod payload;
pub mod plan;
pub mod quantize;
pub mod references;
pub mod rng;
pub mod rounding;
pub mod scale;
pub mod settings;
pub mod text;
pub mod timestamp;
pub mod topk;
pub mod validation;
pub mod wire;
