pub mod aggregated_proof;
pub mod challenge;
pub mod opening;
pub mod srs;
