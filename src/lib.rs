pub mod record;
pub mod kmeans;
pub mod analysis;
pub mod similarity;
pub mod rings;
pub mod offenders;
pub mod pipeline;
pub mod normalize;
