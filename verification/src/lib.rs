pub mod art_algo;
pub mod art_generator;
pub mod board;
pub mod coverage;
pub mod dither;
pub mod kmeans;
pub mod raster;
pub mod stringifier;
pub mod util;
