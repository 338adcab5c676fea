//! Codec for a chunk-based voxel-scene container: tagged chunks that hold a
//! palette, voxel grids and the scene graph that places them.
//!
//! The executable side reads and writes byte buffers:
//! [`riff`] frames chunks and holds the records that chunk bodies are made
//! of, [`model`] and [`voxel`] hold the grids, [`node`] the scene graph,
//! [`layer`] and [`color`] the layers and the palette, and [`voxfile`] the
//! container as a whole. [`convert`] and [`decimal`] encode numbers.
//!
//! The layout modules state, as functions on byte sequences, what each part
//! is written as and what is read from given bytes, and prove that reading
//! undoes writing: [`layout`] for the records, [`model_layout`] for grids,
//! [`scene_layout`] for the scene graph, [`scan_layout`] for the scan over
//! chunk headers, and [`container_layout`] for whole containers.

pub mod color;
pub mod container_layout;
pub mod convert;
pub mod decimal;
pub mod layer;
pub mod layout;
pub mod model;
pub mod model_layout;
pub mod node;
pub mod riff;
pub mod scan_layout;
pub mod scene_layout;
pub mod voxel;
pub mod voxfile;

pub use color::Color;
pub use model::Model;
pub use voxel::Voxel;
pub use voxfile::VoxFile;
