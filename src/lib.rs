pub mod contig;
pub mod files;
pub mod filter;
pub mod fingerprint;
pub mod inference;
pub mod matrix;
pub mod plan;
pub mod reassign;
pub mod sample;
pub mod seeds;
