//! What can go wrong.

use crate::geometry::Bounds;
use crate::point_format::PointFormat;
use vstd::prelude::*;

verus! {

/// `las_crs::CrsError`, why no coordinate reference system could be read. It
/// is carried and never looked into.
#[verifier::external_type_specification]
#[verifier::external_body]
pub struct ExCrsError(las_crs::CrsError);

/// Why a point is left out of the file.
#[derive(Clone, Copy, Debug, PartialEq, Eq, Structural)]
pub enum PointAddError {
    /// The point does not have the attributes of the file's format.
    PointAttributesDoNotMatch(PointFormat),
    /// The point is outside the octree.
    PointNotInBounds,
}

/// Why a file cannot be written.
#[derive(Debug)]
pub enum CopcError {
    /// The file name does not end in `.copc.laz`.
    WrongCopcExtension,
    /// A node would have to hold at least as many points as it may hold at most.
    InvalidNodeSize,
    /// The bounds are empty, flat or not finite.
    InvalidBounds(Bounds),
    /// No coordinate reference system could be read from the header.
    InvalidCrs(las_crs::CrsError),
    /// There is no definition of the coordinate reference system with this code.
    InvalidEPSGCode(u16),
    /// The point format cannot be written.
    InvalidPointFormat(PointFormat),
    /// There is no point format with this number.
    InvalidPointFormatNumber(u8),
    /// The header cannot be brought into the form of the file.
    InvalidHeader(las::Error),
    /// A record does not fit the layout of its header.
    InvalidRecord(las::Error),
    /// The writer is closed.
    ClosedWriter,
    /// The file would have no points.
    EmptyCopcFile,
    /// The caller cancelled the write.
    Cancelled,
    /// Some points were left out; the others are written.
    InvalidPoint(PointAddError),
    /// No octree node takes the point.
    PointNotAddedToAnyNode,
}

} // verus!
