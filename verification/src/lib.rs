//! A tabular-data transform layer: stable grouping of rows, a generic
//! grouped-apply executor, a wide-reshape (pivot) pass with deterministic
//! column-name collision resolution, and a seeded, reproducible sampler
//! over a family of univariate probability distributions.

pub mod apply;
pub mod combine;
pub mod draws;
pub mod error;
pub mod group;
pub mod num_str;
pub mod pivot;
pub mod sample;
pub mod sort;
pub mod table;
pub mod table_ops;
pub mod value;
