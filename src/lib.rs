//! Byte-level statistics of binary data: n-gram histograms, frequency
//! rankings and co-occurrence rasters.

pub mod histogram;
pub mod keys;
pub mod ranking;
pub mod raster;
