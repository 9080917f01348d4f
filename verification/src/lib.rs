//! The decisions of a COPC (cloud optimized point cloud) file writer.
//!
//! The crate plans a file from a header, places points in an octree, buffers the
//! records of each octree node within a memory budget, chooses what leaves
//! memory, and keeps the hierarchy of written chunks. Computing with
//! floating-point numbers, compressing chunks and touching files is left to the
//! caller, who performs what the functions here ask for and reports back.
//!
//! A file is written in this order: [`plan_file`] plans it, [`header_records`]
//! gives the records of its header, and [`CopcWriter::new_with_options`] makes
//! the writer. [`CopcWriter::write`] opens a [`Session`]; each point goes from
//! [`CopcWriter::offer_point`] through the steps that the returned [`Action`]s
//! ask for. [`CopcWriter::close`] hands out what is left, put together so that no
//! node has too few points; [`CopcWriter::evlr_bytes`], [`CopcWriter::complete_info`]
//! and [`CopcWriter::finish_close`] finish the file. [`laws`] states what holds of a
//! file as a whole.

pub mod bytes;
pub mod cells;
pub mod chunk_store;
pub mod compression;
pub mod crs;
pub mod error;
pub mod geometry;
pub mod grouping;
pub mod hierarchy;
pub mod ingest;
pub mod key;
pub mod keymap;
pub mod laws;
pub mod ledger;
pub mod octree;
pub mod options;
pub mod order;
pub mod point_format;
pub mod record;
pub mod scalar;
pub mod session;
pub mod steps;
pub mod tally;
pub mod text;
pub mod voxel;
pub mod writer;

pub use chunk_store::{AppendStep, ChunkBuffer, ChunkStore};
pub use error::{CopcError, PointAddError};
pub use geometry::{bounds_contains_point, octant_of, split_bounds, Bounds, Position};
pub use grouping::Group;
pub use hierarchy::{CopcInfo, Entry, HierarchyPage};
pub use ingest::{Admission, PointAttributes, Progress};
pub use key::VoxelKey;
pub use octree::{Octree, OctreeNode, PlaceStep};
pub use options::WriterOptions;
pub use point_format::{FormatFields, PointFormat, UpgradePdrf};
pub use record::Vlr;
pub use session::{Action, Phase, Prompt, Session};
pub use voxel::{voxel_cell, voxel_grid_size, Occupancy, VoxelNode, VoxelStep};
pub use writer::{
    check_extensions, header_records, plan_file, CopcWriter, FilePlan, GridIndices, HeaderInfo,
    NewHeader, Placement, PointInfo,
};
