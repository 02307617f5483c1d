//! Reassembly of vertically sliced image strips and clustering of
//! near-duplicate images.
//!
//! - `fragment`: decoded strips and the boundary dissimilarity between two.
//! - `ordering`: the greedy nearest-neighbour chain over that dissimilarity.
//! - `canvas`: horizontal composition of ordered strips.
//! - `grouping`: perceptual fingerprints and first-fit clustering.
//! - `sorting`: filename-based orders of strip paths.
//! - `extractor`: key/value payloads hidden in image metadata text.
pub mod fragment;
pub mod ordering;
pub mod canvas;
pub mod grouping;
pub mod sorting;
pub mod extractor;
