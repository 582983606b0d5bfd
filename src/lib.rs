//! Perceptual image fingerprints, their distances, a searchable store of
//! fingerprints, and a Harris corner detector over grayscale pixel grids.

pub mod corner;
pub mod dhash;
pub mod fgs;
pub mod hash_dir;
pub mod ihash;
pub mod ranking;
