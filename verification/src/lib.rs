//! Connected cut toolkit: instance files, linear-program text, cut helpers.

pub mod graph;
pub mod text;
pub mod grammar;
pub mod instance;
pub mod lp;
pub mod scan;
pub mod cut;
pub mod apx;
pub mod generator;
pub mod roundtrip;
pub mod lp_readback;
pub mod solution_readback;
