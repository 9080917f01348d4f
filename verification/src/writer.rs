//! The writer: what it decides from the header to the last byte.

use crate::chunk_store::{AppendStep, ChunkBuffer, ChunkStore};
use crate::compression::laz_vlr;
use crate::crs::plan_records;
use crate::error::CopcError;
use crate::geometry::{Bounds, Position};
use crate::grouping::{gather, Group};
use crate::hierarchy::{CopcInfo, Entry, HierarchyPage};
use crate::ingest::{uses_greedy, PointAttributes, Progress};
use crate::key::VoxelKey;
use crate::octree::{Octree, PlaceStep};
use crate::options::WriterOptions;
use crate::point_format::{upgrade_for, FormatFields, PointFormat, UpgradePdrf};
use crate::record::{record_bytes, write_records, Vlr};
use crate::scalar::{is_normal, less_than, LARGEST_BITS, LOWEST_BITS};
use crate::session::{Phase, Session, SessionView};
use crate::text::{same_text, to_lower_case};
use crate::voxel::{self, Occupancy, VoxelNode, VoxelStep};
use std::path::PathBuf;
use vstd::prelude::*;

verus! {

/// The least number of points in a node where none is asked for.
pub const MIN_NODE_SIZE_DEFAULT: i32 = 256;

/// The greatest number of points in a node where none is asked for.
pub const MAX_NODE_SIZE_DEFAULT: i32 = 16384;

/// The size of what precedes the data of an extended record.
pub const EVLR_HEADER_SIZE: u64 = 60;

/// Whether the two extensions, in lower case, are those of this kind of file.
pub fn are_copc_extensions(copc: &str, laz: &str) -> (res: bool)
    ensures
        res == (copc@ == "copc"@ && laz@ == "laz"@),
{
    same_text(copc, "copc") && same_text(laz, "laz")
}

/// Whether a file name with these extensions ends in `.copc.laz`, in any letter case.
pub open spec fn is_copc_name(copc: Option<Seq<char>>, laz: Option<Seq<char>>) -> bool {
    match (copc, laz) {
        (Some(copc), Some(laz)) => crate::text::lower_case(copc) == "copc"@
            && crate::text::lower_case(laz) == "laz"@,
        _ => false,
    }
}

/// Checks that a file name ends in `.copc.laz`, in any letter case: `laz` is its
/// extension, and `copc` that of what comes before.
pub fn check_extensions(copc: Option<&str>, laz: Option<&str>) -> (res: Result<(), CopcError>)
    ensures
        res is Ok <==> copc is Some && laz is Some && crate::text::lower_case(copc->0@) == "copc"@
            && crate::text::lower_case(laz->0@) == "laz"@,
        res is Err ==> res->Err_0 == CopcError::WrongCopcExtension,
        res is Ok <==> is_copc_name(
            match copc {
                Some(copc) => Some(copc@),
                None => None,
            },
            match laz {
                Some(laz) => Some(laz@),
                None => None,
            },
        ),
{
    match (copc, laz) {
        (Some(copc), Some(laz)) => {
            if are_copc_extensions(to_lower_case(copc).as_str(), to_lower_case(laz).as_str()) {
                Ok(())
            } else {
                Err(CopcError::WrongCopcExtension)
            }
        },
        _ => Err(CopcError::WrongCopcExtension),
    }
}

/// The size that is meant by `size`: a size below 1 stands for `default`.
pub open spec fn effective_size(size: i32, default: i32) -> i32 {
    if size < 1 {
        default
    } else {
        size
    }
}

/// The least and the greatest number of points in a node that are meant by the two sizes,
/// where they can be used.
pub open spec fn meant_sizes(min_size: i32, max_size: i32) -> Option<(i32, i32)> {
    let min = effective_size(min_size, MIN_NODE_SIZE_DEFAULT);
    let max = effective_size(max_size, MAX_NODE_SIZE_DEFAULT);
    if min >= max {
        None
    } else {
        Some((min, max))
    }
}

/// The least and the greatest number of points in a node. The least must be
/// below the greatest.
pub fn node_sizes(min_size: i32, max_size: i32) -> (res: Result<(i32, i32), CopcError>)
    ensures
        ({
            let min = effective_size(min_size, MIN_NODE_SIZE_DEFAULT);
            let max = effective_size(max_size, MAX_NODE_SIZE_DEFAULT);
            if min >= max {
                res == Err::<(i32, i32), CopcError>(CopcError::InvalidNodeSize)
            } else {
                res == Ok::<(i32, i32), CopcError>((min, max))
            }
        }),
        res.ok() == meant_sizes(min_size, max_size),
{
    let min: i32 = if min_size < 1 {
        MIN_NODE_SIZE_DEFAULT
    } else {
        min_size
    };
    let max: i32 = if max_size < 1 {
        MAX_NODE_SIZE_DEFAULT
    } else {
        max_size
    };
    if min >= max {
        Err(CopcError::InvalidNodeSize)
    } else {
        Ok((min, max))
    }
}

/// What the header that a file starts from says.
pub struct HeaderInfo {
    pub vlrs: Vec<Vlr>,
    pub evlrs: Vec<Vlr>,
    pub bounds: Bounds,
    /// The bits of the length of the bounds along each axis.
    pub extent: Position,
    /// The fields of the header in the form of the file, where it has one.
    pub fields: Result<FormatFields, las::Error>,
}

impl HeaderInfo {
    /// Whether the bounds have a volume: their length along each axis is a
    /// normal number.
    pub open spec fn has_volume(self) -> bool {
        crate::scalar::normal(self.extent.x) && crate::scalar::normal(self.extent.y)
            && crate::scalar::normal(self.extent.z)
    }

    /// Whether there is a coordinate reference system among the records, as text or
    /// in GeoTIFF form.
    pub open spec fn has_crs(self) -> bool {
        crate::record::has_crs(crate::record::views(self.vlrs@)) || crate::record::has_crs(
            crate::record::views(self.evlrs@),
        )
    }

    /// What becomes of the records.
    pub open spec fn record_plan(self) -> crate::crs::RecordPlan {
        crate::crs::planned(crate::record::views(self.vlrs@), crate::record::views(self.evlrs@))
    }
}

/// The header of a new file, as far as it differs from the one that the file starts
/// from.
#[derive(Debug)]
pub struct NewHeader {
    /// The version of the file format.
    pub version: (u8, u8),
    pub fields: FormatFields,
    /// The points, in all and by return, of a file with few points.
    pub number_of_point_records: u32,
    pub number_of_points_by_return: [u32; 5],
    /// The points of a file with many points.
    pub large_file: Option<u64>,
    /// Where the records after the points are.
    pub evlr: Option<EvlrField>,
    /// What stands between the header and its records.
    pub padding: Vec<u8>,
}

impl NewHeader {
    /// Whether the header is that of a file of version 1.4 that has no points and no
    /// records after them yet, with the given fields.
    pub open spec fn is_blank(self, fields: FormatFields) -> bool {
        &&& self.version == (1u8, 4u8)
        &&& self.fields == fields
        &&& self.number_of_point_records == 0
        &&& self.number_of_points_by_return@ == seq![0u32, 0, 0, 0, 0]
        &&& self.large_file is None
        &&& self.evlr is None
        &&& self.padding@.len() == 0
    }
}

/// What a new file is like.
#[derive(Debug)]
pub struct FilePlan {
    pub min_node_size: i32,
    pub max_node_size: i32,
    /// The records that go into the header, after those of the writer.
    pub vlrs: Vec<Vlr>,
    /// The records that go after the hierarchy.
    pub evlrs: Vec<Vlr>,
    pub upgrade: UpgradePdrf,
    pub header: NewHeader,
}

/// Whether `plan` is the plan of a file with these records and fields, and nodes of these
/// sizes.
pub open spec fn is_plan_of(
    plan: FilePlan,
    sizes: Option<(i32, i32)>,
    records: crate::crs::RecordPlan,
    fields: FormatFields,
) -> bool {
    &&& sizes == Some((plan.min_node_size, plan.max_node_size))
    &&& records == (crate::crs::RecordPlan::Kept {
        vlrs: crate::record::views(plan.vlrs@),
        evlrs: crate::record::views(plan.evlrs@),
    })
    &&& UpgradePdrf::of(fields.format) == Some(plan.upgrade)
    &&& plan.header.is_blank(fields.upgraded(plan.upgrade))
}

/// Plans a file that starts from `header`, with nodes of `min_size` to `max_size`
/// points. The first thing that is wrong is the error: the sizes of nodes, the
/// coordinate reference system, the bounds, the header, the point format.
pub fn plan_file(header: HeaderInfo, min_size: i32, max_size: i32) -> (res: Result<
    FilePlan,
    CopcError,
>)
    requires
        effective_size(min_size, MIN_NODE_SIZE_DEFAULT) < effective_size(
            max_size,
            MAX_NODE_SIZE_DEFAULT,
        ) && header.has_crs() && header.has_volume() ==> (header.fields matches Ok(fields) ==> (
        UpgradePdrf::of(fields.format) matches Some(upgrade) ==> fields.record_length
            + upgrade.growth() <= u16::MAX)),
    ensures
        effective_size(min_size, MIN_NODE_SIZE_DEFAULT) < effective_size(
            max_size,
            MAX_NODE_SIZE_DEFAULT,
        ) && !header.has_crs() ==> res is Err && res->Err_0 is InvalidCrs,
        res matches Ok(plan) ==> header.fields is Ok && is_plan_of(
            plan,
            meant_sizes(min_size, max_size),
            header.record_plan(),
            header.fields->Ok_0,
        ),
        meant_sizes(min_size, max_size) is None ==> res is Err,
        !header.has_volume() ==> res is Err,
        ({
            let min = effective_size(min_size, MIN_NODE_SIZE_DEFAULT);
            let max = effective_size(max_size, MAX_NODE_SIZE_DEFAULT);
            if min >= max {
                res is Err && res->Err_0 == CopcError::InvalidNodeSize
            } else {
                match header.record_plan() {
                    crate::crs::RecordPlan::NoCrs => res is Err && res->Err_0 is InvalidCrs,
                    crate::crs::RecordPlan::NoDefinition { code } => res is Err && res->Err_0
                        == CopcError::InvalidEPSGCode(code),
                    crate::crs::RecordPlan::Kept { vlrs, evlrs } => if !header.has_volume() {
                        res is Err && res->Err_0 == CopcError::InvalidBounds(header.bounds)
                    } else {
                        match header.fields {
                            Err(error) => res is Err && res->Err_0 == CopcError::InvalidHeader(
                                error,
                            ),
                            Ok(fields) => match UpgradePdrf::of(fields.format) {
                                None => res is Err && res->Err_0 == (if fields.format <= 10
                                    || fields.format >= 128 {
                                    CopcError::InvalidPointFormat(
                                        crate::point_format::numbered_format(fields.format),
                                    )
                                } else {
                                    CopcError::InvalidPointFormatNumber(fields.format)
                                }),
                                Some(upgrade) => {
                                    &&& res is Ok
                                    &&& res->Ok_0.min_node_size == min
                                    &&& res->Ok_0.max_node_size == max
                                    &&& crate::record::views(res->Ok_0.vlrs@) == vlrs
                                    &&& crate::record::views(res->Ok_0.evlrs@) == evlrs
                                    &&& res->Ok_0.upgrade == upgrade
                                    &&& res->Ok_0.header.is_blank(fields.upgraded(upgrade))
                                },
                            },
                        }
                    },
                }
            }
        }),
{
    let (min_node_size, max_node_size) = match node_sizes(min_size, max_size) {
        Ok(sizes) => sizes,
        Err(error) => return Err(error),
    };
    let (vlrs, evlrs) = match plan_records(&header.vlrs, &header.evlrs) {
        Ok(records) => records,
        Err(error) => return Err(error),
    };
    if !is_normal(header.extent.x) || !is_normal(header.extent.y) || !is_normal(header.extent.z) {
        return Err(CopcError::InvalidBounds(header.bounds));
    }
    let fields: FormatFields = match header.fields {
        Ok(fields) => fields,
        Err(error) => return Err(CopcError::InvalidHeader(error)),
    };
    let upgrade: UpgradePdrf = match upgrade_for(fields.format) {
        Ok(upgrade) => upgrade,
        Err(error) => return Err(error),
    };
    Ok(
        FilePlan {
            min_node_size,
            max_node_size,
            vlrs,
            evlrs,
            upgrade,
            header: NewHeader {
                version: (1, 4),
                fields: fields.upgrade(upgrade),
                number_of_point_records: 0,
                number_of_points_by_return: [0u32, 0, 0, 0, 0],
                large_file: None,
                evlr: None,
                padding: Vec::new(),
            },
        },
    )
}

/// The records of the header: the description of the file, still blank, how its
/// points are compressed, and the `kept` ones.
pub open spec fn listed_records(format: PointFormat, kept: Seq<crate::record::VlrView>) -> Seq<
    crate::record::VlrView,
> {
    seq![CopcInfo::blank().record(), crate::compression::compression_record(format)] + kept
}

/// The records of the header: the description of the file, still blank, how its
/// points are compressed, and the `kept` ones.
pub fn header_records(format: &PointFormat, kept: Vec<Vlr>) -> (res: Vec<Vlr>)
    ensures
        crate::record::views(res@) == seq![
            CopcInfo::blank().record(),
            crate::compression::compression_record(*format),
        ] + crate::record::views(kept@),
        crate::record::views(res@) == listed_records(*format, crate::record::views(kept@)),
{
    let mut records: Vec<Vlr> = Vec::new();
    records.push(CopcInfo::default().to_vlr());
    records.push(laz_vlr(format));
    let ghost own = crate::record::views(records@);
    assert(own =~= seq![
        CopcInfo::blank().record(),
        crate::compression::compression_record(*format),
    ]);
    let ghost more = crate::record::views(kept@);
    let mut kept: Vec<Vlr> = kept;
    records.append(&mut kept);
    assert(crate::record::views(records@) =~= own + more);
    records
}

/// Where the points of a new file go, in space and in the file. Coordinates and
/// lengths are the bits of binary64 numbers.
#[derive(Clone, Copy, Debug, PartialEq, Eq, Structural)]
pub struct Placement {
    /// Where the file starts in the stream.
    pub start: u64,
    /// Where the points start in the stream.
    pub points_start: u64,
    /// The center of the cube that the octree covers.
    pub center: Position,
    /// Half the edge of the cube.
    pub halfsize: u64,
    /// The edge of the cube.
    pub edge: u64,
    /// The faces of the cube.
    pub cube: Bounds,
    /// The resolution of the coordinates along each axis.
    pub scale: Position,
    /// How many halvings lead from the edge of the cube to the finest resolution.
    pub halvings: i32,
    pub format: PointFormat,
}

/// The state of a writer.
#[verifier::ext_equal]
pub struct WriterView {
    pub closed: bool,
    pub start: u64,
    pub min_node_size: i32,
    pub max_node_size: i32,
    pub max_level: i32,
    pub format: PointFormat,
    /// The points that were taken in.
    pub points: nat,
    pub info: CopcInfo,
    pub entries: Seq<Entry>,
    /// The nodes of the entries, each with the records that were handed out.
    pub handed: Seq<(VoxelKey, Seq<Seq<u8>>)>,
    pub octree: crate::octree::OctreeView,
    pub store: crate::chunk_store::StoreView,
    /// The cells that have a representative.
    pub claimed: Set<(VoxelKey, u64)>,
}

impl WriterView {
    /// The state of a writer that has taken in nothing.
    pub open spec fn fresh(
        min_node_size: i32,
        max_node_size: i32,
        place: Placement,
        budget: nat,
    ) -> WriterView {
        WriterView {
            closed: false,
            start: place.start,
            min_node_size,
            max_node_size,
            max_level: crate::voxel::deepest_level(
                place.edge,
                crate::voxel::finest_scale(place.scale),
                place.halvings,
            ) as i32,
            format: place.format,
            points: 0,
            info: CopcInfo {
                center: place.center,
                halfsize: place.halfsize,
                spacing: 0,
                root_hier_offset: 0,
                root_hier_size: 0,
                gpstime_minimum: LARGEST_BITS,
                gpstime_maximum: LOWEST_BITS,
            },
            entries: Seq::empty(),
            handed: Seq::empty(),
            octree: crate::octree::OctreeView {
                nodes: seq![
                    crate::octree::OctreeNode::empty(
                        VoxelKey::root(),
                        place.points_start,
                        place.cube,
                    ),
                ],
                max: max_node_size,
            },
            store: crate::chunk_store::StoreView { budget, buffered: 0, chunks: Map::empty() },
            claimed: Set::empty(),
        }
    }

    /// The cube that the octree covers.
    pub open spec fn cube(self) -> Bounds {
        self.octree.nodes[0].bounds
    }

    /// Whether `list` has the nodes that are left to be compressed, with all chunks
    /// that have records, and none with too few points as long as there are others.
    pub open spec fn lists_what_is_left(self, list: Seq<Group>) -> bool {
        let chunks = crate::grouping::chunk_records(
            crate::chunk_store::to_compress(self.store.chunks),
        );
        crate::grouping::lists(
            crate::grouping::grouped(chunks, self.min_node_size as int),
            crate::grouping::group_keys(chunks, self.min_node_size as int),
            list,
        )
    }

    /// The writer with one more entry: that of the compressed chunk of `key`, with these
    /// records.
    pub open spec fn entering(
        self,
        key: VoxelKey,
        offset: u64,
        byte_count: u64,
        point_count: u64,
        records: Seq<Seq<u8>>,
    ) -> WriterView {
        WriterView {
            entries: self.entries.push(chunk_entry(key, offset, byte_count, point_count)),
            handed: self.handed.push((key, records)),
            ..self
        }
    }

    /// How a point stands to the writer's format and cube.
    pub open spec fn offer(self, point: PointInfo) -> crate::ingest::Offer {
        crate::ingest::Offer {
            matches: point.attributes.agree(self.format),
            inside: crate::geometry::contains(self.cube(), point.position),
        }
    }
}

/// What a writer has to know of a point.
#[derive(Clone, Copy, Debug, PartialEq, Eq, Structural)]
pub struct PointInfo {
    pub position: Position,
    pub attributes: PointAttributes,
    /// The bits of the time when the point was taken.
    pub gps_time: Option<u64>,
}

/// The description with the time of one more point: the times of all points are
/// between its two limits. A point without a time counts as taken at 0.
pub open spec fn with_time(info: CopcInfo, gps_time: Option<u64>) -> CopcInfo {
    let time = match gps_time {
        Some(time) => time,
        None => 0,
    };
    CopcInfo {
        gpstime_minimum: if crate::scalar::less(time, info.gpstime_minimum) {
            time
        } else {
            info.gpstime_minimum
        },
        gpstime_maximum: if crate::scalar::less(info.gpstime_maximum, time) {
            time
        } else {
            info.gpstime_maximum
        },
        ..info
    }
}

/// Where a point is in the grid of a node, before it is known whether it is
/// inside the grid.
#[derive(Clone, Copy, Debug, PartialEq, Eq, Structural)]
pub struct GridIndices {
    pub x: i64,
    pub y: i64,
    pub z: i64,
}

/// The entry of a chunk of `byte_count` bytes and `point_count` points at
/// `offset`. Of large counts the lowest 32 bits are kept, as a signed number.
pub open spec fn chunk_entry(key: VoxelKey, offset: u64, byte_count: u64, point_count: u64) -> Entry {
    Entry { key, offset, byte_size: byte_count as i32, point_count: point_count as i32 }
}

/// Whether an entry says where the compressed chunk of `key` is, and how many points it
/// has: from `offset` on, `byte_count` bytes, as far as an entry can tell.
pub open spec fn says_where(
    entry: Entry,
    key: VoxelKey,
    offset: u64,
    byte_count: u64,
    point_count: u64,
) -> bool {
    &&& entry.key == key
    &&& entry.offset == offset
    &&& byte_count <= 0x7fff_ffff ==> entry.byte_size == byte_count && entry.offset
        + entry.byte_size == offset + byte_count
    &&& point_count <= 0x7fff_ffff ==> entry.point_count == point_count
}

/// A writer of a COPC file. It keeps the books; the caller computes with
/// floating-point numbers, compresses chunks and touches files.
pub struct CopcWriter {
    is_closed: bool,
    start: u64,
    hierarchy: HierarchyPage,
    min_node_size: i32,
    max_node_size: i32,
    max_level: i32,
    grid: i64,
    format: PointFormat,
    number_of_points: u64,
    copc_info: CopcInfo,
    octree: Octree,
    chunk_store: ChunkStore,
    voxel_occupancy: Occupancy,
    handed: Ghost<Seq<(VoxelKey, Seq<Seq<u8>>)>>,
}

impl View for CopcWriter {
    type V = WriterView;

    closed spec fn view(&self) -> WriterView {
        WriterView {
            closed: self.is_closed,
            start: self.start,
            min_node_size: self.min_node_size,
            max_node_size: self.max_node_size,
            max_level: self.max_level,
            format: self.format,
            points: self.number_of_points as nat,
            info: self.copc_info,
            entries: self.hierarchy.entries@,
            octree: self.octree@,
            store: self.chunk_store@,
            claimed: self.voxel_occupancy@,
            handed: self.handed@,
        }
    }
}

impl CopcWriter {
    /// The octree, the chunks and the sizes are as they should be.
    pub closed spec fn wf(&self) -> bool {
        &&& 1 <= self.min_node_size < self.max_node_size
        &&& self.octree@.wf()
        &&& self.octree@.max == self.max_node_size
        &&& self.chunk_store.wf()
        &&& 2 <= self.grid <= 46341
        &&& self.grid == voxel::grid_of(self.max_node_size)
        &&& 0 <= self.max_level <= voxel::MAX_VOXEL_LEVEL_CAP
    }

    /// The directory for what does not fit in memory.
    pub closed spec fn dir(&self) -> PathBuf {
        self.chunk_store.dir()
    }

    /// The parts are as they should be.
    pub proof fn lemma_parts_are_wf(&self)
        requires
            self.wf(),
        ensures
            self@.store.wf(),
            self@.octree.wf(),
            self@.octree.max == self@.max_node_size,
            self@.octree.nodes.len() <= usize::MAX,
            2 <= voxel::grid_of(self@.max_node_size) <= 46341,
    {
        self.chunk_store.lemma_view_is_wf();
        self.octree.lemma_nodes_fit();
    }

    /// A writer for the planned file, with the default options.
    pub fn new(
        min_node_size: i32,
        max_node_size: i32,
        place: &Placement,
        default_dir: PathBuf,
    ) -> (res: Result<CopcWriter, CopcError>)
        requires
            1 <= min_node_size < max_node_size,
        ensures
            res matches Ok(writer) && {
                &&& writer.wf()
                &&& writer.dir() == default_dir
                &&& writer@ == WriterView::fresh(
                    min_node_size,
                    max_node_size,
                    *place,
                    4 * 1024 * 1024 * 1024,
                )
            },
    {
        CopcWriter::new_with_options(
            min_node_size,
            max_node_size,
            place,
            WriterOptions::default(),
            default_dir,
        )
    }

    /// A writer for a file with nodes of `min_node_size` to `max_node_size`
    /// points, placed at `place`. What does not fit in memory goes to the directory
    /// of `options` or else to `default_dir`.
    pub fn new_with_options(
        min_node_size: i32,
        max_node_size: i32,
        place: &Placement,
        options: WriterOptions,
        default_dir: PathBuf,
    ) -> (res: Result<CopcWriter, CopcError>)
        requires
            1 <= min_node_size < max_node_size,
        ensures
            res matches Ok(writer) && {
                &&& writer.wf()
                &&& writer.dir() == (match options.temp_dir {
                    Some(dir) => dir,
                    None => default_dir,
                })
                &&& writer@ == WriterView::fresh(
                    min_node_size,
                    max_node_size,
                    *place,
                    options.memory_budget_bytes as nat,
                )
            },
    {
        let max_level: i32 = voxel::max_voxel_level(
            place.edge,
            voxel::voxel_scale(&place.scale),
            place.halvings,
        );
        let chunk_store: ChunkStore = match ChunkStore::new(options, default_dir) {
            Ok(chunk_store) => chunk_store,
            Err(error) => return Err(error),
        };
        let entries: Vec<Entry> = Vec::new();
        let writer = CopcWriter {
            is_closed: false,
            start: place.start,
            hierarchy: HierarchyPage { entries },
            min_node_size,
            max_node_size,
            max_level,
            grid: voxel::voxel_grid_size(max_node_size),
            format: place.format,
            number_of_points: 0,
            copc_info: CopcInfo {
                center: place.center,
                halfsize: place.halfsize,
                spacing: 0,
                root_hier_offset: 0,
                root_hier_size: 0,
                gpstime_minimum: LARGEST_BITS,
                gpstime_maximum: LOWEST_BITS,
            },
            octree: Octree::new(place.cube, place.points_start, max_node_size),
            chunk_store,
            voxel_occupancy: Occupancy::new(),
            handed: Ghost(Seq::empty()),
        };
        Ok(writer)
    }

    /// Whether this writer is closed or not.
    pub fn is_closed(&self) -> (res: bool)
        ensures
            res == self@.closed,
    {
        self.is_closed
    }

    /// The number of points in the largest node.
    pub fn max_node_size(&self) -> (res: i32)
        ensures
            res == self@.max_node_size,
    {
        self.max_node_size
    }

    /// The number of points in the smallest node.
    pub fn min_node_size(&self) -> (res: i32)
        ensures
            res == self@.min_node_size,
    {
        self.min_node_size
    }

    /// The hierarchy of the chunks that are written.
    pub fn hierarchy_entries(&self) -> (res: &HierarchyPage)
        ensures
            res.entries@ == self@.entries,
    {
        &self.hierarchy
    }

    /// The description of the file.
    pub fn copc_info(&self) -> (res: &CopcInfo)
        ensures
            *res == self@.info,
    {
        &self.copc_info
    }

    /// The points that were taken in.
    pub fn number_of_points(&self) -> (res: u64)
        ensures
            res == self@.points,
    {
        self.number_of_points
    }

    /// Where the file starts in the stream.
    pub fn start(&self) -> (res: u64)
        ensures
            res == self@.start,
    {
        self.start
    }

    /// The directory for what does not fit in memory.
    pub fn temp_dir(&self) -> (res: &PathBuf)
        ensures
            *res == self.dir(),
    {
        self.chunk_store.temp_dir()
    }

    /// The cells along an edge of a node's grid.
    pub fn voxel_grid_size(&self) -> (res: i64)
        requires
            self.wf(),
        ensures
            res == voxel::grid_of(self@.max_node_size),
            2 <= res <= 46341,
    {
        self.grid
    }

    /// The deepest level of the voxel strategy.
    pub fn max_voxel_level(&self) -> (res: i32)
        ensures
            res == self@.max_level,
    {
        self.max_level
    }

    fn open_session(&self, num_points: i32, cancellable: bool, progress: Option<Progress>) -> (res:
        Result<Session, CopcError>)
        requires
            self.wf(),
            progress matches Some(progress) ==> progress.wf(),
        ensures
            self@.closed ==> res == Err::<Session, CopcError>(CopcError::ClosedWriter),
            !self@.closed ==> (res matches Ok(session) && {
                &&& session.wf()
                &&& num_points < 1 ==> session@.greedy
                &&& session@.greedy == crate::ingest::chooses_greedy(
                    num_points,
                    self@.min_node_size,
                    self@.max_node_size,
                )
                &&& session@ == (SessionView {
                    greedy: num_points < self@.max_node_size + self@.min_node_size,
                    cancellable,
                    index: 0,
                    phase: Phase::Idle,
                    error: None,
                    progress: match progress {
                        Some(progress) => Some(progress@),
                        None => None,
                    },
                })
            }),
    {
        if self.is_closed {
            return Err(CopcError::ClosedWriter);
        }
        let greedy: bool = uses_greedy(num_points, self.min_node_size, self.max_node_size);
        Ok(Session::new(greedy, cancellable, progress))
    }

    /// Starts to write points, `num_points` of them or so: the number chooses
    /// between the greedy and the voxel strategy. It is an error if the writer is
    /// closed.
    pub fn write(&self, num_points: i32) -> (res: Result<Session, CopcError>)
        requires
            self.wf(),
        ensures
            self@.closed ==> res == Err::<Session, CopcError>(CopcError::ClosedWriter),
            !self@.closed ==> (res matches Ok(session) && {
                &&& session.wf()
                &&& num_points < 1 ==> session@.greedy
                &&& session@.greedy == crate::ingest::chooses_greedy(
                    num_points,
                    self@.min_node_size,
                    self@.max_node_size,
                )
                &&& crate::session::is_opened(
                    session@,
                    num_points,
                    self@.min_node_size,
                    self@.max_node_size,
                    false,
                    false,
                )
                &&& session@ == (SessionView {
                    greedy: num_points < self@.max_node_size + self@.min_node_size,
                    cancellable: false,
                    index: 0,
                    phase: Phase::Idle,
                    error: None,
                    progress: None,
                })
            }),
    {
        self.open_session(num_points, false, None)
    }

    /// Like `write`, but the caller is asked every so often whether to go on.
    pub fn write_cancellable(&self, num_points: i32) -> (res: Result<Session, CopcError>)
        requires
            self.wf(),
        ensures
            self@.closed ==> res == Err::<Session, CopcError>(CopcError::ClosedWriter),
            !self@.closed ==> (res matches Ok(session) && {
                &&& session.wf()
                &&& num_points < 1 ==> session@.greedy
                &&& session@.greedy == crate::ingest::chooses_greedy(
                    num_points,
                    self@.min_node_size,
                    self@.max_node_size,
                )
                &&& crate::session::is_opened(
                    session@,
                    num_points,
                    self@.min_node_size,
                    self@.max_node_size,
                    true,
                    false,
                )
                &&& session@ == (SessionView {
                    greedy: num_points < self@.max_node_size + self@.min_node_size,
                    cancellable: true,
                    index: 0,
                    phase: Phase::Idle,
                    error: None,
                    progress: None,
                })
            }),
    {
        self.open_session(num_points, true, None)
    }

    /// Like `write`, but the caller is told how far things are, through taking in
    /// and through compressing.
    pub fn write_with_progress(&self, num_points: i32) -> (res: Result<Session, CopcError>)
        requires
            self.wf(),
        ensures
            self@.closed ==> res == Err::<Session, CopcError>(CopcError::ClosedWriter),
            !self@.closed ==> (res matches Ok(session) && {
                &&& session.wf()
                &&& num_points < 1 ==> session@.greedy
                &&& session@.greedy == crate::ingest::chooses_greedy(
                    num_points,
                    self@.min_node_size,
                    self@.max_node_size,
                )
                &&& crate::session::is_opened(
                    session@,
                    num_points,
                    self@.min_node_size,
                    self@.max_node_size,
                    false,
                    true,
                )
                &&& session@ == (SessionView {
                    greedy: num_points < self@.max_node_size + self@.min_node_size,
                    cancellable: false,
                    index: 0,
                    phase: Phase::Idle,
                    error: None,
                    progress: Some(
                        crate::ingest::ProgressView {
                            base: if num_points < 0 {
                                0
                            } else {
                                num_points as nat
                            },
                            compressed: 0,
                            reached: 0,
                            percent: None,
                        },
                    ),
                })
            }),
    {
        self.open_session(num_points, false, Some(Progress::new(num_points)))
    }

    /// A session to close the file with, without more points.
    pub fn closing_session(&self) -> (res: Session)
        ensures
            res.wf(),
            res@ == (SessionView {
                greedy: false,
                cancellable: false,
                index: 0,
                phase: Phase::Idle,
                error: None,
                progress: None,
            }),
    {
        Session::new(false, false, None)
    }

    /// Whether a point is taken in. If so, it counts; if not, the session notes
    /// why.
    pub(crate) fn take_in(&mut self, session: &mut Session, point: &PointInfo) -> (res: bool)
        requires
            old(self).wf(),
            old(session).wf(),
            old(self)@.points < u64::MAX,
        ensures
            final(self).wf(),
            final(session).wf(),
            final(self).dir() == old(self).dir(),
            ({
                let offer = old(self)@.offer(*point);
                &&& res == offer.taken()
                &&& final(session)@ == (SessionView {
                    error: crate::ingest::noted(old(session)@.error, offer, old(self)@.format),
                    ..old(session)@
                })
                &&& final(self)@ == (if offer.taken() {
                    WriterView {
                        points: old(self)@.points + 1,
                        info: with_time(old(self)@.info, point.gps_time),
                        ..old(self)@
                    }
                } else {
                    old(self)@
                })
            }),
    {
        let cube: Bounds = self.octree.root_bounds();
        let taken: bool = session.accept(
            &point.attributes,
            &point.position,
            &self.format,
            &cube,
        );
        if taken {
            self.add_point_to_header(point.gps_time);
        }
        taken
    }

    fn add_point_to_header(&mut self, gps_time: Option<u64>)
        requires
            old(self).wf(),
            old(self)@.points < u64::MAX,
        ensures
            final(self).wf(),
            final(self).dir() == old(self).dir(),
            final(self)@ == (WriterView {
                points: old(self)@.points + 1,
                info: with_time(old(self)@.info, gps_time),
                ..old(self)@
            }),
    {
        self.number_of_points = self.number_of_points + 1;
        let time: u64 = match gps_time {
            Some(time) => time,
            None => 0,
        };
        let info: CopcInfo = self.copc_info;
        if less_than(time, info.gpstime_minimum) {
            self.copc_info.gpstime_minimum = time;
        }
        if less_than(info.gpstime_maximum, time) {
            self.copc_info.gpstime_maximum = time;
        }
    }

    /// Puts a point into the first octree node that contains it and has room.
    pub(crate) fn add_point_greedy(&mut self, p: &Position) -> (res: Result<PlaceStep, CopcError>)
        requires
            old(self).wf(),
        ensures
            final(self).wf(),
            final(self).dir() == old(self).dir(),
            ({
                let before = old(self)@;
                let i = before.octree.find(0, *p);
                let node = before.octree.nodes[i];
                if !crate::geometry::contains(before.cube(), *p) {
                    &&& res is Err
                    &&& res->Err_0 == CopcError::PointNotAddedToAnyNode
                    &&& final(self)@ == before
                } else if node.full(before.max_node_size) {
                    &&& res is Ok
                    &&& res->Ok_0 == (PlaceStep::Divide {
                        node: i as usize,
                        key: node.entry.key,
                        bounds: node.bounds,
                    })
                    &&& 0 <= i < before.octree.nodes.len()
                    &&& node.split is None
                    &&& final(self)@ == before
                } else {
                    &&& res is Ok
                    &&& res->Ok_0 == (PlaceStep::Placed {
                        key: node.entry.key,
                        full: node.with_point().full(before.max_node_size),
                    })
                    &&& 0 <= i < before.octree.nodes.len()
                    &&& final(self)@ == (WriterView { octree: before.octree.placed(i), ..before })
                }
            }),
    {
        match self.octree.place(p) {
            PlaceStep::Outside => Err(CopcError::PointNotAddedToAnyNode),
            step => Ok(step),
        }
    }

    /// Divides a full octree node at the center of its box.
    pub(crate) fn divide_node(&mut self, node: usize, center: &Position)
        requires
            old(self).wf(),
            node < old(self)@.octree.nodes.len(),
            old(self)@.octree.nodes[node as int].full(old(self)@.max_node_size),
            old(self)@.octree.nodes[node as int].split is None,
            old(self)@.octree.nodes[node as int].entry.key.level < i32::MAX,
        ensures
            final(self).wf(),
            final(self).dir() == old(self).dir(),
            final(self)@ == (WriterView {
                octree: old(self)@.octree.divided(node as int, *center),
                ..old(self)@
            }),
    {
        self.octree.split(node, center);
    }

    /// The node where the way of a point down the grids starts.
    pub(crate) fn root_voxel(&self) -> (res: VoxelNode)
        requires
            self.wf(),
        ensures
            res.key == VoxelKey::root(),
            res.bounds == self@.cube(),
    {
        VoxelNode {
            key: VoxelKey { level: 0, x: 0, y: 0, z: 0 },
            bounds: self.octree.root_bounds(),
        }
    }

    /// Takes a point one step down from `node`, where it has the grid coordinates
    /// `indices` and the box of the node has the center `center`.
    pub(crate) fn add_point_voxel(
        &mut self,
        node: &VoxelNode,
        indices: &GridIndices,
        p: &Position,
        center: &Position,
    ) -> (step: VoxelStep)
        requires
            old(self).wf(),
        ensures
            final(self).wf(),
            final(self).dir() == old(self).dir(),
            ({
                let before = old(self)@;
                let cell = voxel::cell_number(
                    indices.x as int,
                    indices.y as int,
                    indices.z as int,
                    voxel::grid_of(before.max_node_size),
                ) as u64;
                &&& final(self)@ == (WriterView {
                    claimed: before.claimed.insert((node.key, cell)),
                    ..before
                })
                &&& step == (if !before.claimed.contains((node.key, cell)) || node.key.level
                    >= before.max_level {
                    VoxelStep::Place { key: node.key }
                } else {
                    VoxelStep::Descend { node: node.toward(*p, *center) }
                })
            }),
    {
        let cell: u64 = voxel::voxel_cell(indices.x, indices.y, indices.z, self.grid);
        voxel::voxel_step(&mut self.voxel_occupancy, node, cell, p, center, self.max_level)
    }

    /// The name, within the directory, of the file for the chunk of `key`.
    pub fn spill_path_for(&self, key: &VoxelKey) -> (res: String)
        ensures
            res@ == crate::chunk_store::spill_file_name(*key),
    {
        self.chunk_store.spill_path_for(key)
    }

    /// The chunk of `key`.
    pub fn chunk(&self, key: &VoxelKey) -> (res: Option<&ChunkBuffer>)
        requires
            self.wf(),
        ensures
            res is Some <==> self@.store.chunks.contains_key(*key),
            res matches Some(chunk) ==> chunk@ == self@.store.chunks[*key] && chunk.wf(*key),
    {
        self.chunk_store.get(key)
    }

    /// Adds the record of a point to the chunk of `key`, or says what the caller
    /// has to do for that.
    pub(crate) fn write_point_to_open_chunk(&mut self, key: VoxelKey, bytes: Vec<u8>) -> (step: AppendStep)
        requires
            old(self).wf(),
            old(self)@.store.points(key) < u32::MAX,
        ensures
            final(self).wf(),
            final(self).dir() == old(self).dir(),
            final(self)@ == (WriterView { store: final(self)@.store, ..old(self)@ }),
            old(self)@.store.spilled(key) ==> step == (AppendStep::AppendToFile { bytes })
                && final(self)@ == old(self)@,
            !old(self)@.store.spilled(key) ==> crate::chunk_store::appends(
                old(self)@.store,
                final(self)@.store,
                key,
                bytes,
                step,
            ),
    {
        self.chunk_store.append(key, bytes)
    }

    /// Takes note of an attempt to move the chunk of `victim` to a file, and, where
    /// it succeeded, continues to add the record of a point to the chunk of `key`.
    /// Where it failed, the chunk is lost, and the record is not added.
    pub(crate) fn chunk_spilled(
        &mut self,
        victim: &VoxelKey,
        written: bool,
        key: VoxelKey,
        bytes: Vec<u8>,
    ) -> (res: Option<AppendStep>)
        requires
            old(self).wf(),
            old(self)@.store.in_memory(*victim),
            old(self)@.store.points(key) < u32::MAX,
        ensures
            final(self).wf(),
            final(self).dir() == old(self).dir(),
            final(self)@ == (WriterView { store: final(self)@.store, ..old(self)@ }),
            !written ==> res is None && final(self)@.store == old(self)@.store.lost(*victim),
            written ==> (res matches Some(step) && crate::chunk_store::appends(
                old(self)@.store.spill(*victim),
                final(self)@.store,
                key,
                bytes,
                step,
            )),
    {
        self.chunk_store.spill_in_memory_chunk(victim, written);
        if written {
            Some(self.chunk_store.resume_append(key, bytes))
        } else {
            None
        }
    }

    /// Takes note that the record `bytes` of a point was written to the file of
    /// the chunk of `key`: to its end, or to a new file where there was no chunk.
    pub(crate) fn record_filed(&mut self, key: VoxelKey, bytes: &Vec<u8>)
        requires
            old(self).wf(),
            !old(self)@.store.in_memory(key),
            old(self)@.store.points(key) < u32::MAX,
            old(self)@.store.spilled(key) ==> old(self)@.store.content(key).len() + bytes@.len()
                <= u64::MAX,
        ensures
            final(self).wf(),
            final(self).dir() == old(self).dir(),
            final(self)@ == (WriterView {
                store: old(self)@.store.filed(key, bytes@),
                ..old(self)@
            }),
    {
        if self.chunk_store.get(&key).is_some() {
            self.chunk_store.append_to_spilled(key, bytes);
        } else {
            self.chunk_store.write_new_spilled_chunk(key, bytes);
        }
    }

    /// Hands the chunk of `key` out to be compressed.
    pub(crate) fn take_chunk(&mut self, key: &VoxelKey) -> (res: Option<ChunkBuffer>)
        requires
            old(self).wf(),
        ensures
            final(self).wf(),
            final(self).dir() == old(self).dir(),
            final(self)@ == (WriterView { store: old(self)@.store.removed(*key), ..old(self)@ }),
            res is Some <==> old(self)@.store.chunks.contains_key(*key),
            res matches Some(chunk) ==> chunk@ == old(self)@.store.chunks[*key] && chunk.wf(*key),
    {
        self.chunk_store.remove(key)
    }

    /// Takes note that the chunk of `key` was compressed to `byte_count` bytes at
    /// `offset`, with `point_count` points.
    pub(crate) fn record_chunk(
        &mut self,
        key: VoxelKey,
        offset: u64,
        byte_count: u64,
        point_count: u64,
        Ghost(records): Ghost<Seq<Seq<u8>>>,
    )
        requires
            old(self).wf(),
        ensures
            final(self).wf(),
            final(self).dir() == old(self).dir(),
            final(self)@ == old(self)@.entering(key, offset, byte_count, point_count, records),
            says_where(final(self)@.entries.last(), key, offset, byte_count, point_count),
    {
        let byte_size: i32 = #[verifier::truncate]
        (byte_count as i32);
        let points: i32 = #[verifier::truncate]
        (point_count as i32);
        self.hierarchy.entries.push(Entry { key, offset, byte_size, point_count: points });
        self.handed = Ghost(self.handed@.push((key, records)));
    }

    /// The files that hold chunks, each once.
    pub fn leftover_files(&self) -> (res: Vec<String>)
        requires
            self.wf(),
        ensures
            forall|i: int, j: int| 0 <= i < j < res@.len() ==> res@[i]@ != res@[j]@,
            forall|i: int| 0 <= i < res@.len() ==> self@.store.has_file((#[trigger] res@[i])@),
            forall|key: VoxelKey| #[trigger]
                self@.store.spilled(key) ==> exists|i: int|
                    0 <= i < res@.len() && (#[trigger] res@[i])@
                        == crate::chunk_store::spill_file_name(key),
    {
        self.chunk_store.spilled_files()
    }

    /// Gives the file up: the writer is closed, and the write ends in an error.
    pub fn cancel(&mut self) -> (res: CopcError)
        requires
            old(self).wf(),
        ensures
            final(self).wf(),
            final(self).dir() == old(self).dir(),
            final(self)@ == (WriterView { closed: true, ..old(self)@ }),
            res == CopcError::Cancelled,
    {
        self.is_closed = true;
        CopcError::Cancelled
    }

    /// Starts to close the file: hands out the nodes that are still to be compressed,
    /// each with its chunks, the deepest first. It is an error if the writer is closed,
    /// or if no point was taken in.
    pub(crate) fn begin_close(&mut self) -> (res: Result<Vec<Group>, CopcError>)
        requires
            old(self).wf(),
        ensures
            final(self).wf(),
            final(self).dir() == old(self).dir(),
            if old(self)@.closed {
                &&& res is Err
                &&& res->Err_0 == CopcError::ClosedWriter
                &&& final(self)@ == old(self)@
            } else if old(self)@.points < 1 {
                &&& res is Err
                &&& res->Err_0 == CopcError::EmptyCopcFile
                &&& final(self)@ == old(self)@
            } else {
                &&& res is Ok
                &&& old(self)@.lists_what_is_left(res->Ok_0@)
                &&& crate::grouping::none_is_small(
                    res->Ok_0@,
                    old(self)@.min_node_size as int,
                )
                &&& final(self)@ == (WriterView {
                    store: crate::chunk_store::StoreView {
                        chunks: Map::empty(),
                        ..old(self)@.store
                    },
                    ..old(self)@
                })
            },
    {
        if self.is_closed {
            return Err(CopcError::ClosedWriter);
        }
        if self.number_of_points < 1 {
            return Err(CopcError::EmptyCopcFile);
        }
        let ghost chunks = crate::chunk_store::to_compress(self@.store.chunks);
        proof {
            self.chunk_store.lemma_view_is_wf();
            vstd::set_lib::lemma_set_subset_finite(self@.store.chunks.dom(), chunks.dom());
        }
        let list: Vec<(VoxelKey, ChunkBuffer)> = self.chunk_store.drain_to_compress();
        Ok(gather(list, self.min_node_size, Ghost(chunks)))
    }

    /// What follows the chunks: the record of the hierarchy, then `evlrs`. It is an
    /// error if one of `evlrs` does not fit its header.
    pub fn evlr_bytes(&self, evlrs: &Vec<Vlr>) -> (res: Result<Vec<u8>, CopcError>)
        ensures
            (forall|i: int| 0 <= i < evlrs@.len() ==> (#[trigger] evlrs@[i])@.fits(true)) ==> (
            res matches Ok(bytes) && bytes@ == crate::hierarchy::hierarchy_record(
                self@.entries,
            ).encoded(true) + crate::record::encoded_records(crate::record::views(evlrs@), true)
                && bytes@ == tail_of(self@.entries, crate::record::views(evlrs@))),
            res is Ok ==> forall|i: int|
                0 <= i < evlrs@.len() ==> (#[trigger] evlrs@[i])@.fits(true),
            res is Err ==> res->Err_0 is InvalidRecord,
    {
        let record: Vlr = self.hierarchy.to_evlr();
        proof {
            lemma_own_names_fit();
        }
        match record_bytes(&record, true) {
            Ok(bytes) => {
                let mut out: Vec<u8> = bytes;
                match write_records(&mut out, evlrs, true) {
                    Ok(_) => Ok(out),
                    Err(error) => Err(error),
                }
            },
            Err(error) => Err(error),
        }
    }

    /// Completes the description of the file, whose hierarchy starts at
    /// `start_of_first_evlr` and whose points are `spacing` apart. Returns its record
    /// as it is in the file.
    pub fn complete_info(&mut self, start_of_first_evlr: u64, spacing: u64) -> (res: Result<
        Vec<u8>,
        CopcError,
    >)
        requires
            old(self).wf(),
            start_of_first_evlr + EVLR_HEADER_SIZE <= u64::MAX,
            crate::hierarchy::ENTRY_SIZE * old(self)@.entries.len() <= u64::MAX,
        ensures
            final(self).wf(),
            final(self).dir() == old(self).dir(),
            final(self)@ == (WriterView {
                info: CopcInfo {
                    spacing,
                    root_hier_offset: (start_of_first_evlr + EVLR_HEADER_SIZE) as u64,
                    root_hier_size: (crate::hierarchy::ENTRY_SIZE
                        * old(self)@.entries.len()) as u64,
                    ..old(self)@.info
                },
                ..old(self)@
            }),
            final(self)@.info == described(
                old(self)@.info,
                old(self)@.entries,
                start_of_first_evlr,
                spacing,
            ),
            res matches Ok(bytes) && bytes@ == final(self)@.info.record().encoded(false),
    {
        self.copc_info.spacing = spacing;
        self.copc_info.root_hier_offset = start_of_first_evlr + EVLR_HEADER_SIZE;
        self.copc_info.root_hier_size = self.hierarchy.byte_size();
        let record: Vlr = self.copc_info.to_vlr();
        proof {
            lemma_own_names_fit();
        }
        record_bytes(&record, false)
    }

    /// Closes the writer: the file is complete.
    pub fn finish_close(&mut self)
        requires
            old(self).wf(),
        ensures
            final(self).wf(),
            final(self).dir() == old(self).dir(),
            final(self)@ == (WriterView { closed: true, ..old(self)@ }),
    {
        self.is_closed = true;
    }
}

/// What follows the chunks of a file with these entries and these other records.
pub open spec fn tail_of(entries: Seq<Entry>, evlrs: Seq<crate::record::VlrView>) -> Seq<u8> {
    crate::hierarchy::hierarchy_record(entries).encoded(true) + crate::record::encoded_records(
        evlrs,
        true,
    )
}

/// The description of a file with these entries, whose hierarchy is in the record at
/// `start_of_first_evlr` and whose points are `spacing` apart.
pub open spec fn described(
    info: CopcInfo,
    entries: Seq<Entry>,
    start_of_first_evlr: u64,
    spacing: u64,
) -> CopcInfo {
    CopcInfo {
        spacing,
        root_hier_offset: (start_of_first_evlr + EVLR_HEADER_SIZE) as u64,
        root_hier_size: (crate::hierarchy::ENTRY_SIZE * entries.len()) as u64,
        ..info
    }
}

/// The number of extended records of a file, where its header counts those that are not
/// the hierarchy.
pub open spec fn evlr_count(counted: Option<EvlrField>) -> int {
    match counted {
        Some(field) => field.number_of_evlrs + 1,
        None => 1,
    }
}

/// Where the extended records of a file are, and how many there are.
#[derive(Clone, Copy, Debug, PartialEq, Eq, Structural)]
pub struct EvlrField {
    pub start_of_first_evlr: u64,
    pub number_of_evlrs: u32,
}

/// The header's field about extended records: they start at
/// `start_of_first_evlr`, and the hierarchy is one more than the header counts.
pub fn evlr_field(counted: Option<EvlrField>, start_of_first_evlr: u64) -> (res: EvlrField)
    requires
        counted matches Some(field) ==> field.number_of_evlrs < u32::MAX,
    ensures
        res.start_of_first_evlr == start_of_first_evlr,
        res.number_of_evlrs == (match counted {
            Some(field) => field.number_of_evlrs + 1,
            None => 1,
        }),
        res.number_of_evlrs == evlr_count(counted),
{
    let others: u32 = match counted {
        Some(field) => field.number_of_evlrs,
        None => 0,
    };
    EvlrField { start_of_first_evlr, number_of_evlrs: others + 1 }
}

proof fn lemma_own_names_fit()
    ensures
        vstd::utf8::encode_utf8("copc"@).len() == 4,
        vstd::utf8::encode_utf8("EPT hierarchy"@).len() == 13,
        vstd::utf8::encode_utf8("COPC info VLR"@).len() == 13,
{
    reveal_strlit("copc");
    reveal_strlit("EPT hierarchy");
    reveal_strlit("COPC info VLR");
    vstd::utf8::is_ascii_chars_encode_utf8("copc"@);
    vstd::utf8::is_ascii_chars_encode_utf8("EPT hierarchy"@);
    vstd::utf8::is_ascii_chars_encode_utf8("COPC info VLR"@);
}

/// The description tells where the hierarchy is: in what follows the chunks,
/// the entries start where `root_hier_offset` says and are as long as
/// `root_hier_size` says.
pub proof fn lemma_hierarchy_is_found(entries: Seq<Entry>, evlrs: Seq<crate::record::VlrView>)
    ensures
        ({
            let bytes = crate::hierarchy::hierarchy_record(entries).encoded(true)
                + crate::record::encoded_records(evlrs, true);
            let end = EVLR_HEADER_SIZE + crate::hierarchy::ENTRY_SIZE * entries.len();
            &&& end <= bytes.len()
            &&& bytes.subrange(EVLR_HEADER_SIZE as int, end)
                == crate::hierarchy::encoded_entries(entries)
        }),
{
    let record = crate::hierarchy::hierarchy_record(entries);
    let bytes = record.encoded(true) + crate::record::encoded_records(evlrs, true);
    let end = EVLR_HEADER_SIZE + crate::hierarchy::ENTRY_SIZE * entries.len();
    lemma_own_names_fit();
    crate::hierarchy::lemma_entries_len(entries);
    crate::bytes::lemma_little_endian_len(record.record_id as nat, 2);
    crate::bytes::lemma_little_endian_len(record.data.len(), 8);
    assert(bytes.subrange(EVLR_HEADER_SIZE as int, end) =~= record.data);
}

/// The description after points taken at `times`, one after another.
pub open spec fn with_times(info: CopcInfo, times: Seq<Option<u64>>) -> CopcInfo
    decreases times.len(),
{
    if times.len() == 0 {
        info
    } else {
        with_time(with_times(info, times.drop_last()), times.last())
    }
}

/// The description covers all points in time: every time that is a number is
/// between the two limits, and a point without a time counts as taken at 0.
pub proof fn lemma_times_are_covered(info: CopcInfo, times: Seq<Option<u64>>, i: int)
    requires
        0 <= i < times.len(),
        !crate::scalar::is_nan(info.gpstime_minimum),
        !crate::scalar::is_nan(info.gpstime_maximum),
    ensures
        ({
            let after = with_times(info, times);
            let time = match times[i] {
                Some(time) => time,
                None => 0,
            };
            !crate::scalar::is_nan(time) ==> crate::scalar::at_least(time, after.gpstime_minimum)
                && crate::scalar::at_least(after.gpstime_maximum, time)
        }),
    decreases times.len(),
{
    lemma_limits_are_numbers(info, times.drop_last());
    if i < times.len() - 1 {
        lemma_times_are_covered(info, times.drop_last(), i);
    }
}

proof fn lemma_limits_are_numbers(info: CopcInfo, times: Seq<Option<u64>>)
    requires
        !crate::scalar::is_nan(info.gpstime_minimum),
        !crate::scalar::is_nan(info.gpstime_maximum),
    ensures
        !crate::scalar::is_nan(with_times(info, times).gpstime_minimum),
        !crate::scalar::is_nan(with_times(info, times).gpstime_maximum),
    decreases times.len(),
{
    if times.len() > 0 {
        lemma_limits_are_numbers(info, times.drop_last());
    }
}

/// The entry of a chunk says where its bytes are: where the size can be told, the bytes
/// from `offset` on, as many as the entry says, are exactly the compressed chunk.
pub proof fn lemma_entry_says_where_the_chunk_is(
    key: VoxelKey,
    offset: u64,
    byte_count: u64,
    point_count: u64,
)
    ensures
        says_where(
            chunk_entry(key, offset, byte_count, point_count),
            key,
            offset,
            byte_count,
            point_count,
        ),
{
}

/// A size that is at least 1 is meant as it is; any other stands for the default.
pub proof fn lemma_sizes_that_are_meant(size: i32, default: i32)
    ensures
        size >= 1 ==> effective_size(size, default) == size,
        size <= 0 ==> effective_size(size, default) == default,
        MIN_NODE_SIZE_DEFAULT == 256,
        MAX_NODE_SIZE_DEFAULT == 16384,
{
}

/// A point's time widens the limits as far as it has to, and no further: afterwards its
/// time is within them, each limit is the one before or that time, and nothing else of
/// the description changes. A point without a time counts as taken at 0.
pub proof fn lemma_time_widens_the_limits(info: CopcInfo, gps_time: Option<u64>)
    requires
        !crate::scalar::is_nan(info.gpstime_minimum),
        !crate::scalar::is_nan(info.gpstime_maximum),
    ensures
        ({
            let time: u64 = if gps_time is Some { gps_time->0 } else { 0 };
            let after = with_time(info, gps_time);
            let low = after.gpstime_minimum;
            let high = after.gpstime_maximum;
            &&& !crate::scalar::is_nan(time) ==> crate::scalar::units(low) <= crate::scalar::units(
                time,
            ) <= crate::scalar::units(high)
            &&& crate::scalar::units(low) <= crate::scalar::units(info.gpstime_minimum)
            &&& crate::scalar::units(high) >= crate::scalar::units(info.gpstime_maximum)
            &&& low == info.gpstime_minimum || low == time
            &&& high == info.gpstime_maximum || high == time
            &&& crate::scalar::is_nan(time) ==> after == info
            &&& after.center == info.center && after.halfsize == info.halfsize
            &&& after.spacing == info.spacing && after.root_hier_offset == info.root_hier_offset
            &&& after.root_hier_size == info.root_hier_size
        }),
{
    let time: u64 = if gps_time is Some { gps_time->0 } else { 0 };
    crate::scalar::lemma_comparison_is_of_values(time, info.gpstime_minimum);
    crate::scalar::lemma_comparison_is_of_values(info.gpstime_maximum, time);
}

/// The limits are taken from the points: each limit is the one before all points or the
/// time of one of them.
pub proof fn lemma_limits_are_times_of_points(info: CopcInfo, times: Seq<Option<u64>>)
    ensures
        ({
            let after = with_times(info, times);
            &&& after.gpstime_minimum == info.gpstime_minimum || is_time_of_some(
                times,
                after.gpstime_minimum,
            )
            &&& after.gpstime_maximum == info.gpstime_maximum || is_time_of_some(
                times,
                after.gpstime_maximum,
            )
        }),
    decreases times.len(),
{
    if times.len() > 0 {
        let fewer = times.drop_last();
        let before = with_times(info, fewer);
        lemma_limits_are_times_of_points(info, fewer);
        assert forall|time: u64| is_time_of_some(fewer, time) implies is_time_of_some(
            times,
            time,
        ) by {
            let i = choose|i: int|
                0 <= i < fewer.len() && (#[trigger] fewer[i] == Some(time) || fewer[i] is None
                    && time == 0);
            assert(times[i] == fewer[i]);
        }
        assert(times[times.len() - 1] == times.last());
    }
}

/// Whether `time` is the time of one of the points; a point without a time counts as
/// taken at 0.
pub open spec fn is_time_of_some(times: Seq<Option<u64>>, time: u64) -> bool {
    exists|i: int|
        0 <= i < times.len() && (#[trigger] times[i] == Some(time) || times[i] is None && time == 0)
}

/// A new writer has no points and no entries, the sizes that were asked for, and the
/// place that it was given. Its limits of times are those of no point: every finite time
/// is below the one and above the other.
pub proof fn lemma_new_writer(
    min_node_size: i32,
    max_node_size: i32,
    place: Placement,
    budget: nat,
    time: u64,
)
    ensures
        ({
            let writer = WriterView::fresh(min_node_size, max_node_size, place, budget);
            &&& !writer.closed
            &&& writer.points == 0
            &&& writer.entries.len() == 0
            &&& writer.min_node_size == min_node_size && writer.max_node_size == max_node_size
            &&& writer.start == place.start
            &&& writer.format == place.format
            &&& writer.info.center == place.center && writer.info.halfsize == place.halfsize
            &&& writer.cube() == place.cube
            &&& writer.octree.nodes.len() == 1 && writer.octree.nodes[0].entry.point_count == 0
            &&& writer.octree.nodes[0].split is None
            &&& writer.octree.max == max_node_size
            &&& writer.max_level == crate::voxel::deepest_level(
                place.edge,
                crate::voxel::finest_scale(place.scale),
                place.halvings,
            )
            &&& writer.store.budget == budget && writer.store.buffered == 0
            &&& writer.store.chunks.dom().len() == 0
            &&& writer.claimed.len() == 0
            &&& crate::scalar::exponent_field(time) <= 2046 ==> {
                &&& crate::scalar::units(time) <= crate::scalar::units(writer.info.gpstime_minimum)
                &&& crate::scalar::units(time) >= crate::scalar::units(writer.info.gpstime_maximum)
            }
            &&& crate::scalar::exponent_field(writer.info.gpstime_minimum) == 2046
            &&& crate::scalar::exponent_field(writer.info.gpstime_maximum) == 2046
        }),
{
    let writer = WriterView::fresh(min_node_size, max_node_size, place, budget);
    crate::scalar::lemma_comparison_is_of_values(writer.info.gpstime_minimum, time);
    crate::scalar::lemma_comparison_is_of_values(time, writer.info.gpstime_maximum);
    crate::scalar::lemma_no_number(time);
    crate::scalar::lemma_no_number(writer.info.gpstime_minimum);
    crate::scalar::lemma_no_number(writer.info.gpstime_maximum);
    assert(writer.store.chunks.dom() =~= Set::<VoxelKey>::empty());
}

/// A point is offered by its attributes and its place: it matches where its attributes
/// are those of the format, and is inside where the cube has it.
pub proof fn lemma_offer_is_by_attributes_and_place(writer: WriterView, point: PointInfo)
    ensures
        ({
            let offer = writer.offer(point);
            let attributes = point.attributes;
            &&& offer.matches <==> {
                &&& attributes.has_gps_time == writer.format.has_gps_time
                &&& attributes.has_color == writer.format.has_color
                &&& attributes.has_waveform == writer.format.has_waveform
                &&& attributes.has_nir == writer.format.has_nir
                &&& attributes.extra_bytes == writer.format.extra_bytes
            }
            &&& offer.inside <==> crate::geometry::contains(
                writer.octree.nodes[0].bounds,
                point.position,
            )
        }),
{
}

/// The description leads to the hierarchy: in what follows the chunks, which starts at
/// `start`, the bytes from where the description says on, as many as it says, are the
/// entries, each in its 32 bytes.
pub proof fn lemma_description_leads_to_the_hierarchy(
    info: CopcInfo,
    entries: Seq<Entry>,
    evlrs: Seq<crate::record::VlrView>,
    start: u64,
    spacing: u64,
    i: int,
)
    requires
        start + 60 <= u64::MAX,
        32 * entries.len() <= u64::MAX,
        0 <= i < entries.len(),
    ensures
        ({
            let after = described(info, entries, start, spacing);
            let bytes = tail_of(entries, evlrs);
            let from = after.root_hier_offset - start;
            &&& after.root_hier_size == 32 * entries.len()
            &&& 0 <= from && from + after.root_hier_size <= bytes.len()
            &&& bytes.subrange(from + 32 * i, from + 32 * i + 32) == entries[i].encoded()
            &&& after.spacing == spacing
            &&& after.center == info.center && after.halfsize == info.halfsize
            &&& after.gpstime_minimum == info.gpstime_minimum
            &&& after.gpstime_maximum == info.gpstime_maximum
        }),
{
    let after = described(info, entries, start, spacing);
    let bytes = tail_of(entries, evlrs);
    let from = after.root_hier_offset - start;
    lemma_hierarchy_is_found(entries, evlrs);
    crate::hierarchy::lemma_entries_layout(entries, i);
    assert(bytes.subrange(from + 32 * i, from + 32 * i + 32) =~= bytes.subrange(
        60,
        60 + 32 * entries.len() as int,
    ).subrange(32 * i, 32 * i + 32));
}

/// All extended records are counted: the hierarchy, and those that the header counts.
pub proof fn lemma_hierarchy_is_counted(counted: Option<EvlrField>)
    ensures
        counted is None ==> evlr_count(counted) == 1,
        counted matches Some(field) ==> evlr_count(counted) - field.number_of_evlrs == 1,
{
}

/// Sizes can be used where the least is below the greatest, both at least 1.
pub proof fn lemma_sizes_that_can_be_used(min_size: i32, max_size: i32)
    ensures
        min_size >= 1 && max_size >= 1 ==> (meant_sizes(min_size, max_size) is Some <==> min_size
            < max_size),
        min_size >= 1 && max_size <= 0 ==> (meant_sizes(min_size, max_size) is Some <==> min_size
            < 16384),
        min_size <= 0 && max_size >= 1 ==> (meant_sizes(min_size, max_size) is Some <==> 256
            < max_size),
        min_size <= 0 && max_size <= 0 ==> meant_sizes(min_size, max_size) == Some((256i32, 16384i32)),
        meant_sizes(min_size, max_size) matches Some((min, max)) ==> {
            &&& 1 <= min < max
            &&& min_size >= 1 ==> min == min_size
            &&& max_size >= 1 ==> max == max_size
        },
{
}

/// The description is the first record of the header, how points are compressed is the
/// second, and the records that are kept follow in order.
pub proof fn lemma_description_comes_first(
    format: PointFormat,
    kept: Seq<crate::record::VlrView>,
    i: int,
)
    ensures
        ({
            let records = listed_records(format, kept);
            &&& records.len() == kept.len() + 2
            &&& records[0].record_id == 1 && records[0].user_id == "copc"@
            &&& records[0].data.len() == 160
            &&& records[1].record_id == 22204 && records[1].user_id == "laszip encoded"@
            &&& 0 <= i < kept.len() ==> records[i + 2] == kept[i]
        }),
{
    crate::hierarchy::lemma_description_layout(CopcInfo::blank(), 0);
}

/// Bounds have a volume exactly where their length along each axis is a normal number: it
/// is neither zero nor too small, and neither infinite nor NaN.
pub proof fn lemma_volume_is_along_each_axis(header: HeaderInfo)
    ensures
        header.has_volume() <==> {
            &&& 1 <= crate::scalar::exponent_field(header.extent.x) <= 2046
            &&& 1 <= crate::scalar::exponent_field(header.extent.y) <= 2046
            &&& 1 <= crate::scalar::exponent_field(header.extent.z) <= 2046
        },
{
    crate::scalar::lemma_normal_number(header.extent.x);
    crate::scalar::lemma_normal_number(header.extent.y);
    crate::scalar::lemma_normal_number(header.extent.z);
}

/// A header has a reference system where one of its records of either sort is one.
pub proof fn lemma_reference_system_of_a_header(header: HeaderInfo)
    ensures
        header.has_crs() <==> crate::record::has_wkt(crate::record::views(header.vlrs@))
            || crate::record::has_geotiff_directory(crate::record::views(header.vlrs@))
            || crate::record::has_wkt(crate::record::views(header.evlrs@))
            || crate::record::has_geotiff_directory(crate::record::views(header.evlrs@)),
        header.record_plan() == crate::crs::planned(
            crate::record::views(header.vlrs@),
            crate::record::views(header.evlrs@),
        ),
{
}

/// A new header is of version 1.4, counts no points in any way, has no records after the
/// points, and nothing between itself and its records.
pub proof fn lemma_new_header_is_blank(header: NewHeader, fields: FormatFields, i: int)
    requires
        header.is_blank(fields),
        0 <= i < 5,
    ensures
        header.version.0 == 1 && header.version.1 == 4,
        header.fields == fields,
        header.number_of_point_records == 0,
        header.number_of_points_by_return@[i] == 0,
        header.large_file is None,
        header.evlr is None,
        header.padding@.len() == 0,
{
}

/// A file name needs both extensions: the letters c, o, p and c, and the letters l, a and
/// z, once they are in lower case.
pub proof fn lemma_both_extensions_are_needed(copc: Option<Seq<char>>, laz: Option<Seq<char>>)
    ensures
        copc is None || laz is None ==> !is_copc_name(copc, laz),
        copc is Some && laz is Some ==> (is_copc_name(copc, laz) <==> crate::text::lower_case(
            copc->0,
        ) == seq!['c', 'o', 'p', 'c'] && crate::text::lower_case(laz->0) == seq!['l', 'a', 'z']),
{
    reveal_strlit("copc");
    reveal_strlit("laz");
    assert("copc"@ =~= seq!['c', 'o', 'p', 'c']);
    assert("laz"@ =~= seq!['l', 'a', 'z']);
}

/// A plan keeps the records of the header that are kept, of both sorts and in order, and
/// adds at most the reference system as text. It has nodes of the sizes that are meant,
/// and a header of version 1.4 without points, whose format can be written.
pub proof fn lemma_plan_of_a_file(
    plan: FilePlan,
    min_size: i32,
    max_size: i32,
    vlrs: Seq<crate::record::VlrView>,
    evlrs: Seq<crate::record::VlrView>,
    fields: FormatFields,
)
    requires
        is_plan_of(
            plan,
            meant_sizes(min_size, max_size),
            crate::crs::planned(vlrs, evlrs),
            fields,
        ),
    ensures
        1 <= plan.min_node_size < plan.max_node_size,
        min_size >= 1 ==> plan.min_node_size == min_size,
        max_size >= 1 ==> plan.max_node_size == max_size,
        crate::record::views(plan.evlrs@) == crate::record::forwarded(evlrs),
        crate::record::has_wkt(vlrs) || crate::record::has_wkt(evlrs) ==> crate::record::views(
            plan.vlrs@,
        ) == crate::record::forwarded(vlrs),
        !crate::record::has_wkt(vlrs) && !crate::record::has_wkt(evlrs) ==> plan.vlrs@.len()
            == crate::record::forwarded(vlrs).len() + 1,
        plan.header.version == (1u8, 4u8),
        plan.header.number_of_point_records == 0,
        plan.header.fields.format as int >= 128 + 64 + 6,
        plan.header.fields.format as int <= 128 + 64 + 8,
{
    lemma_sizes_that_can_be_used(min_size, max_size);
    crate::crs::lemma_plan_uses_code_and_definition(vlrs, evlrs);
    crate::crs::lemma_plan_keeps_all_other_records(
        vlrs,
        evlrs,
        crate::crs::horizontal_crs(vlrs, evlrs),
        |code: u16| crate::crs::wkt_definition(code),
    );
    crate::point_format::lemma_formats_that_can_be_written(fields);
    assert(crate::record::views(plan.vlrs@).len() == plan.vlrs@.len());
}

/// A chunk that is compressed adds one entry, at the end, which says where it is and how
/// many points it has. Nothing else changes.
pub proof fn lemma_one_entry_is_added(
    writer: WriterView,
    key: VoxelKey,
    offset: u64,
    byte_count: u64,
    point_count: u64,
    records: Seq<Seq<u8>>,
    i: int,
)
    ensures
        ({
            let after = writer.entering(key, offset, byte_count, point_count, records);
            let n = writer.entries.len();
            &&& after.entries.len() == n + 1
            &&& 0 <= i < n ==> after.entries[i] == writer.entries[i]
            &&& after.entries[n as int].key == key && after.entries[n as int].offset == offset
            &&& byte_count <= i32::MAX ==> after.entries[n as int].byte_size == byte_count
            &&& point_count <= i32::MAX ==> after.entries[n as int].point_count == point_count
            &&& after.handed == writer.handed + seq![(key, records)]
            &&& after.points == writer.points && after.info == writer.info
            &&& after.store == writer.store && after.octree == writer.octree
            &&& after.claimed == writer.claimed && after.closed == writer.closed
        }),
{
    assert(writer.handed.push((key, records)) =~= writer.handed + seq![(key, records)]);
}

} // verus!
