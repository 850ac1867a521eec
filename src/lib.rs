//! A capped, descending, deduplicated registry of fixed-width addresses, its
//! fixed-size binary image, and a validating reader over such an image.

pub mod address;
pub mod registry;
mod sample;
pub mod layout;
pub mod pod;
