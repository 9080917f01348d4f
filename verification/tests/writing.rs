//! Whole files, written by a small driver: it computes with floating-point
//! numbers, keeps files in memory, and stores chunks uncompressed.

use copc_writer::point_format::generating_software;
use copc_writer::writer::{evlr_field, EvlrField};
use copc_writer::{
    check_extensions, header_records, plan_file, Action, Bounds, ChunkBuffer, CopcError,
    CopcWriter, FormatFields, GridIndices, Group, HeaderInfo, Placement, PointAddError, PointAttributes,
    PointFormat, PointInfo, Position, Session, Vlr, VoxelKey, WriterOptions,
};
use las::point::Format;
use las::{Builder, Point, Transform, Vector, Version};
use std::collections::{BTreeMap, HashSet};
use std::path::PathBuf;

const EXTENT: f64 = 200.0;
const ROOT_BIN_COUNT: usize = 4;

fn bits(v: &Vector<f64>) -> Position {
    Position { x: v.x.to_bits(), y: v.y.to_bits(), z: v.z.to_bits() }
}

fn floats(p: &Position) -> Vector<f64> {
    Vector { x: f64::from_bits(p.x), y: f64::from_bits(p.y), z: f64::from_bits(p.z) }
}

fn bounds_bits(b: &las::Bounds) -> Bounds {
    Bounds { min: bits(&b.min), max: bits(&b.max) }
}

fn center_of(b: &Bounds) -> Position {
    let min = floats(&b.min);
    let max = floats(&b.max);
    bits(&Vector {
        x: (min.x + max.x) / 2.0,
        y: (min.y + max.y) / 2.0,
        z: (min.z + max.z) / 2.0,
    })
}

fn indices_in(b: &Bounds, p: &Position, grid: i64) -> GridIndices {
    let min = floats(&b.min);
    let max = floats(&b.max);
    let p = floats(p);
    let edge = max.x - min.x;
    let index = |value: f64, low: f64| ((value - low) / edge * grid as f64).floor() as i64;
    GridIndices { x: index(p.x, min.x), y: index(p.y, min.y), z: index(p.z, min.z) }
}

fn plain_format(format: &Format) -> PointFormat {
    PointFormat {
        has_gps_time: format.has_gps_time,
        has_color: format.has_color,
        is_extended: format.is_extended,
        has_waveform: format.has_waveform,
        has_nir: format.has_nir,
        extra_bytes: format.extra_bytes,
        is_compressed: format.is_compressed,
    }
}

fn plain_vlr(vlr: &las::Vlr) -> Vlr {
    Vlr {
        user_id: vlr.user_id.clone(),
        record_id: vlr.record_id,
        description: vlr.description.clone(),
        data: vlr.data.clone(),
    }
}

fn las_vlr(vlr: Vlr) -> las::Vlr {
    las::Vlr {
        user_id: vlr.user_id,
        record_id: vlr.record_id,
        description: vlr.description,
        data: vlr.data,
    }
}

fn point_info(point: &Point) -> PointInfo {
    PointInfo {
        position: bits(&Vector { x: point.x, y: point.y, z: point.z }),
        attributes: PointAttributes {
            has_gps_time: point.gps_time.is_some(),
            has_color: point.color.is_some(),
            has_waveform: point.waveform.is_some(),
            has_nir: point.nir.is_some(),
            extra_bytes: point.extra_bytes.len(),
        },
        gps_time: point.gps_time.map(f64::to_bits),
    }
}

fn header_info(header: &las::Header) -> HeaderInfo {
    let bounds = header.bounds();
    HeaderInfo {
        vlrs: header.vlrs().iter().map(plain_vlr).collect(),
        evlrs: header.evlrs().iter().map(plain_vlr).collect(),
        bounds: bounds_bits(&bounds),
        extent: bits(&Vector {
            x: bounds.max.x - bounds.min.x,
            y: bounds.max.y - bounds.min.y,
            z: bounds.max.z - bounds.min.z,
        }),
        fields: header.clone().into_raw().map(|raw| FormatFields {
            format: raw.point_data_record_format,
            record_length: raw.point_data_record_length,
            global_encoding: raw.global_encoding,
        }),
    }
}

/// The files of the spill directories.
#[derive(Default)]
struct Disk {
    files: BTreeMap<PathBuf, Vec<u8>>,
    not_a_directory: Option<PathBuf>,
    writes: usize,
}

impl Disk {
    fn usable(&self, dir: &PathBuf) -> bool {
        self.not_a_directory.as_ref() != Some(dir)
    }
}

/// Why the driver gives up.
#[derive(Debug)]
enum Failure {
    Copc(CopcError),
    Disk,
}

struct TestFile {
    header: las::Header,
    core: CopcWriter,
    disk: Disk,
    chunks: Vec<u8>,
}

impl TestFile {
    fn create(
        name: (Option<&str>, Option<&str>),
        header: las::Header,
        min_size: i32,
        max_size: i32,
        options: WriterOptions,
    ) -> Result<TestFile, CopcError> {
        check_extensions(name.0, name.1)?;
        let plan = plan_file(header_info(&header), min_size, max_size)?;
        let bounds = header.bounds();

        let mut raw = header.into_raw().unwrap();
        raw.version = Version::new(plan.header.version.0, plan.header.version.1);
        raw.point_data_record_format = plan.header.fields.format;
        raw.point_data_record_length = plan.header.fields.record_length;
        raw.global_encoding = plan.header.fields.global_encoding;
        raw.number_of_point_records = plan.header.number_of_point_records;
        raw.number_of_points_by_return = plan.header.number_of_points_by_return;
        assert!(plan.header.large_file.is_none() && plan.header.evlr.is_none());
        raw.large_file = None;
        raw.evlr = None;
        raw.padding = plan.header.padding;
        raw.generating_software.copy_from_slice(&generating_software("0.5.0"));
        let mut builder = Builder::new(raw).unwrap();
        let format = plain_format(&builder.point_format);
        builder.vlrs = header_records(&format, plan.vlrs).into_iter().map(las_vlr).collect();
        builder.evlrs = plan.evlrs.into_iter().map(las_vlr).collect();
        let header = builder.into_header().unwrap();

        let center = Vector {
            x: (bounds.min.x + bounds.max.x) / 2.,
            y: (bounds.min.y + bounds.max.y) / 2.,
            z: (bounds.min.z + bounds.max.z) / 2.,
        };
        let halfsize = (center.x - bounds.min.x)
            .max((center.y - bounds.min.y).max(center.z - bounds.min.z));
        let edge = 2.0 * halfsize;
        let t = header.transforms();
        let scale = t.x.scale.abs().min(t.y.scale.abs()).min(t.z.scale.abs());
        let place = Placement {
            start: 0,
            points_start: 0,
            center: bits(&center),
            halfsize: halfsize.to_bits(),
            edge: edge.to_bits(),
            cube: Bounds {
                min: bits(&Vector {
                    x: center.x - halfsize,
                    y: center.y - halfsize,
                    z: center.z - halfsize,
                }),
                max: bits(&Vector {
                    x: center.x + halfsize,
                    y: center.y + halfsize,
                    z: center.z + halfsize,
                }),
            },
            scale: bits(&Vector { x: t.x.scale, y: t.y.scale, z: t.z.scale }),
            halvings: (edge / scale).log2().ceil() as i32,
            format,
        };
        let core = CopcWriter::new_with_options(
            plan.min_node_size,
            plan.max_node_size,
            &place,
            options,
            PathBuf::from("default-spill"),
        )?;
        Ok(TestFile {
            header,
            core,
            disk: Disk::default(),
            chunks: vec![],
        })
    }

    fn path_of(&self, name: &str) -> PathBuf {
        self.core.temp_dir().join(name)
    }

    fn compress(&mut self, group: Group) -> (u64, u64, u64) {
        let mut bytes = vec![];
        for (_, chunk) in group.parts {
            match chunk {
                ChunkBuffer::InMemory { bytes: more, .. } => bytes.extend(more),
                ChunkBuffer::Spilled { path, .. } => {
                    let path = self.core.temp_dir().join(path);
                    bytes.extend(self.disk.files.remove(&path).unwrap());
                }
            }
        }
        let offset = self.chunks.len() as u64;
        let count = bytes.len() as u64 / u64::from(self.header.point_format().len());
        self.chunks.extend_from_slice(&bytes);
        (offset, bytes.len() as u64, count)
    }

    fn add_point(&mut self, session: &mut Session, point: Point) -> Result<(), Failure> {
        let info = point_info(&point);
        let mut action = self.core.offer_point(session, &info);
        if !matches!(action, Action::Done) {
            self.header.add_point(&point);
        }
        loop {
            action = match action {
                Action::Done => return Ok(()),
                Action::FindCenter { key, bounds } => {
                    assert!(key.level < i32::MAX);
                    self.core.center_found(session, &center_of(&bounds))
                }
                Action::Locate { node } => {
                    let grid = self.core.voxel_grid_size();
                    let indices = indices_in(&node.bounds, &info.position, grid);
                    self.core.located(session, &indices, &center_of(&node.bounds))
                }
                Action::Encode { key } => {
                    assert!(self.core.chunk(&key).map_or(0, |c| c.point_count(&key)) < u32::MAX);
                    let raw = point.clone().into_raw(self.header.transforms()).unwrap();
                    let mut bytes = vec![];
                    raw.write_to(&mut bytes, self.header.point_format()).unwrap();
                    self.core.encoded(session, bytes)
                }
                Action::Spill { victim } => {
                    if !self.disk.usable(self.core.temp_dir()) {
                        return Err(Failure::Disk);
                    }
                    let bytes = match self.core.chunk(&victim) {
                        Some(ChunkBuffer::InMemory { bytes, .. }) => bytes.clone(),
                        _ => unreachable!(),
                    };
                    let path = self.path_of(&self.core.spill_path_for(&victim));
                    self.disk.files.insert(path, bytes);
                    self.disk.writes += 1;
                    self.core.spilled(session, true)
                }
                Action::AppendFile { key } => {
                    let record = session.pending_record().unwrap().clone();
                    let name = match self.core.chunk(&key) {
                        Some(ChunkBuffer::Spilled { path, .. }) => path.clone(),
                        _ => unreachable!(),
                    };
                    let path = self.path_of(&name);
                    self.disk.files.get_mut(&path).unwrap().extend_from_slice(&record);
                    self.core.filed(session)
                }
                Action::NewFile { key } => {
                    if !self.disk.usable(self.core.temp_dir()) {
                        return Err(Failure::Disk);
                    }
                    let record = session.pending_record().unwrap().clone();
                    let path = self.path_of(&self.core.spill_path_for(&key));
                    self.disk.files.insert(path, record);
                    self.disk.writes += 1;
                    self.core.filed(session)
                }
                Action::Compress { group } => {
                    let (offset, size, count) = self.compress(group);
                    self.core.compressed(session, offset, size, count)
                }
                Action::Finish | Action::Stop => panic!("the writer gave up"),
            };
        }
    }

    fn close(
        &mut self,
        session: &mut Session,
        progress: &mut dyn FnMut(u64, u64),
    ) -> Result<Vec<u8>, CopcError> {
        let mut action = self.core.close(session)?;
        while let Action::Compress { group } = action {
            let (offset, size, count) = self.compress(group);
            let (next, report) = self.core.chunk_closed(session, offset, size, count);
            if let Some((done, total)) = report {
                progress(done, total);
            }
            action = next;
        }
        assert!(matches!(action, Action::Finish));
        let evlrs: Vec<Vlr> = self.header.evlrs().iter().map(plain_vlr).collect();
        let start_of_first_evlr = self.chunks.len() as u64;
        let tail = self.core.evlr_bytes(&evlrs)?;
        let halfsize = f64::from_bits(self.core.copc_info().halfsize);
        let spacing = 2. * halfsize / self.core.voxel_grid_size() as f64;
        self.core.complete_info(start_of_first_evlr, spacing.to_bits())?;
        self.core.finish_close();
        Ok(tail)
    }

    fn write(&mut self, points: Vec<Point>, num_points: i32) -> Result<(), Failure> {
        let mut session = self.core.write(num_points).map_err(Failure::Copc)?;
        for point in points {
            assert!(session.next_point().report.is_none());
            self.add_point(&mut session, point)?;
        }
        let closed = self.close(&mut session, &mut |_, _| {}).map(|_| ());
        let (outcome, report) = session.conclude(closed);
        assert!(report.is_none());
        outcome.and_then(|outcome| outcome).map_err(Failure::Copc)
    }

    fn write_cancellable(
        &mut self,
        points: Vec<Point>,
        num_points: i32,
        mut cancel: impl FnMut() -> bool,
    ) -> Result<(), Failure> {
        let mut session = self.core.write_cancellable(num_points).map_err(Failure::Copc)?;
        for point in points {
            if session.next_point().ask && cancel() {
                for name in self.core.leftover_files() {
                    let path = self.path_of(&name);
                    assert!(self.disk.files.remove(&path).is_some());
                }
                return Err(Failure::Copc(self.core.cancel()));
            }
            self.add_point(&mut session, point)?;
        }
        let closed = self.close(&mut session, &mut |_, _| {}).map(|_| ());
        let (outcome, report) = session.conclude(closed);
        assert!(report.is_none());
        outcome.and_then(|outcome| outcome).map_err(Failure::Copc)
    }

    fn write_with_progress(
        &mut self,
        points: Vec<Point>,
        num_points: i32,
        mut progress: impl FnMut(u64, u64),
    ) -> Result<(), Failure> {
        let mut session = self.core.write_with_progress(num_points).map_err(Failure::Copc)?;
        for point in points {
            if let Some((done, total)) = session.next_point().report {
                progress(done, total);
            }
            self.add_point(&mut session, point)?;
        }
        let closed = self.close(&mut session, &mut progress).map(|_| ());
        let (outcome, report) = session.conclude(closed);
        if let Some((done, total)) = report {
            progress(done, total);
        }
        outcome.and_then(|outcome| outcome).map_err(Failure::Copc)
    }

    /// The points of the file, those of one level or all.
    fn points(&self, level: Option<i32>) -> Vec<Point> {
        let mut points = vec![];
        for entry in &self.core.hierarchy_entries().entries {
            if level.is_some() && level != Some(entry.key.level) {
                continue;
            }
            let start = entry.offset as usize;
            let end = start + entry.byte_size as usize;
            let mut bytes = &self.chunks[start..end];
            for _ in 0..entry.point_count {
                let raw = las::raw::Point::read_from(&mut bytes, self.header.point_format());
                points.push(Point::new(raw.unwrap(), self.header.transforms()));
            }
            assert!(bytes.is_empty());
        }
        points
    }

    fn no_files_are_left(&self) -> bool {
        self.disk.files.is_empty()
    }
}

const NAME: (Option<&str>, Option<&str>) = (Some("copc"), Some("laz"));

fn test_builder() -> Builder {
    let version = Version::new(1, 4);
    let point_format = Format::new(6).unwrap();
    let raw = las::raw::Header {
        version,
        header_size: version.header_size(),
        offset_to_point_data: u32::from(version.header_size()),
        global_encoding: 16,
        point_data_record_format: point_format.to_u8().unwrap(),
        point_data_record_length: point_format.len(),
        x_scale_factor: 0.001,
        y_scale_factor: 0.001,
        z_scale_factor: 0.001,
        min_x: 0.0,
        max_x: EXTENT,
        min_y: 0.0,
        max_y: EXTENT,
        min_z: 0.0,
        max_z: 1.0,
        ..Default::default()
    };

    let mut builder = Builder::new(raw).unwrap();
    builder.transforms = Vector {
        x: Transform { scale: 0.001, offset: 0.0 },
        y: Transform { scale: 0.001, offset: 0.0 },
        z: Transform { scale: 0.001, offset: 0.0 },
    };
    builder.vlrs.push(las::Vlr {
        user_id: "LASF_Projection".to_string(),
        record_id: 2112,
        description: "WKT CRS".to_string(),
        data: b"LOCAL_CS[\"copc-rs test\"]".to_vec(),
    });
    builder
}

fn test_header() -> las::Header {
    test_builder().into_header().unwrap()
}

fn point_at(x: f64, y: f64, gps_time: f64) -> Point {
    Point {
        x,
        y,
        z: 0.5,
        gps_time: Some(gps_time),
        return_number: 1,
        number_of_returns: 1,
        ..Default::default()
    }
}

fn sweep_points(width: usize, height: usize) -> Vec<Point> {
    let step_x = EXTENT / width as f64;
    let step_y = EXTENT / height as f64;
    let mut points = Vec::with_capacity(width * height);
    for x in 0..width {
        for y in 0..height {
            points.push(point_at(
                (x as f64 + 0.5) * step_x,
                (y as f64 + 0.5) * step_y,
                points.len() as f64,
            ));
        }
    }
    points
}

fn occupied_xy_bins(points: &[Point], bins_per_axis: usize) -> usize {
    let mut occupied = HashSet::new();
    for point in points {
        let ix = ((point.x / EXTENT) * bins_per_axis as f64).floor() as usize;
        let iy = ((point.y / EXTENT) * bins_per_axis as f64).floor() as usize;
        occupied.insert((ix.min(bins_per_axis - 1), iy.min(bins_per_axis - 1)));
    }
    occupied.len()
}

/// The times of the points, which tell them apart.
fn times(points: &[Point]) -> Vec<u64> {
    let mut times: Vec<u64> = points.iter().map(|p| p.gps_time.unwrap() as u64).collect();
    times.sort();
    times
}

#[test]
fn sweep_order_root_lod_spreads_across_the_extent() {
    let points = sweep_points(40, 40);
    let mut file =
        TestFile::create(NAME, test_header(), 1, 64, WriterOptions::default()).unwrap();
    file.write(points.clone(), points.len() as i32).unwrap();

    let all_count = file.points(None).len();
    assert_eq!(points.len(), all_count);

    let root_points = file.points(Some(0));
    let occupied = occupied_xy_bins(&root_points, ROOT_BIN_COUNT);
    assert_eq!(
        ROOT_BIN_COUNT * ROOT_BIN_COUNT,
        occupied,
        "root LOD should cover the whole XY extent, but {} root points occupied only {occupied}/{} coarse bins",
        root_points.len(),
        ROOT_BIN_COUNT * ROOT_BIN_COUNT
    );
}

#[test]
fn writer_options_can_force_spill_budget_without_breaking_losslessness() {
    let points = sweep_points(20, 20);
    let options = WriterOptions {
        memory_budget_bytes: 512,
        temp_dir: Some(PathBuf::from("spill")),
    };
    let mut file = TestFile::create(NAME, test_header(), 1, 64, options).unwrap();
    file.write(points.clone(), points.len() as i32).unwrap();

    assert_eq!(points.len(), file.points(None).len());
    assert_eq!(times(&points), times(&file.points(None)));
    assert!(file.disk.writes > 0);
    assert!(
        file.no_files_are_left(),
        "spill files should be cleaned up after successful close"
    );
}

#[test]
fn forced_spill_uses_configured_temp_dir() {
    let points = sweep_points(20, 20);
    let spill_file = PathBuf::from("not-a-directory");
    let options = WriterOptions {
        memory_budget_bytes: 512,
        temp_dir: Some(spill_file.clone()),
    };
    let mut file = TestFile::create(NAME, test_header(), 1, 64, options).unwrap();
    file.disk.not_a_directory = Some(spill_file);
    assert!(
        file.write(points.clone(), points.len() as i32).is_err(),
        "forced spill should try to use the configured temp directory"
    );
}

#[test]
fn cancellable_write_cleans_spill_files() {
    let points = sweep_points(80, 80);
    let options = WriterOptions {
        memory_budget_bytes: 512,
        temp_dir: Some(PathBuf::from("spill")),
    };
    let mut file = TestFile::create(NAME, test_header(), 1, 64, options).unwrap();

    let mut polls = 0;
    let err = file
        .write_cancellable(points, 80 * 80, || {
            polls += 1;
            polls > 1
        })
        .unwrap_err();

    assert!(matches!(err, Failure::Copc(CopcError::Cancelled)));
    assert!(file.disk.writes > 0);
    assert!(
        file.no_files_are_left(),
        "spill files should be cleaned after cancellation"
    );
    assert!(file.core.is_closed());
}

#[test]
fn colocated_points_terminate_and_remain_queryable() {
    let points: Vec<_> = (0..256).map(|i| point_at(100.0, 100.0, i as f64)).collect();
    let mut file =
        TestFile::create(NAME, test_header(), 1, 64, WriterOptions::default()).unwrap();
    file.write(points.clone(), points.len() as i32).unwrap();

    let queried_count = file
        .points(None)
        .iter()
        .filter(|p| {
            (99.9..=100.1).contains(&p.x)
                && (99.9..=100.1).contains(&p.y)
                && (0.4..=0.6).contains(&p.z)
        })
        .count();
    assert_eq!(points.len(), queried_count);
}

#[test]
fn progress_is_monotonic_completes_and_preserves_points() {
    // 40k points with a small max node size forces the voxel strategy and many
    // chunks, so both the sampling while points are taken in and the reports for
    // each chunk are exercised.
    let points = sweep_points(200, 200);
    let n = points.len() as i32;
    let mut file =
        TestFile::create(NAME, test_header(), 0, 1000, WriterOptions::default()).unwrap();

    let mut samples: Vec<(u64, u64)> = Vec::new();
    file.write_with_progress(points.clone(), n, |done, total| samples.push((done, total)))
        .unwrap();

    assert!(!samples.is_empty(), "no progress was reported");
    let total = samples[0].1;
    assert_eq!(total, 2 * points.len() as u64, "total should be 2 * num_points");
    assert!(
        samples.iter().all(|&(_, t)| t == total),
        "total changed mid-stream: {samples:?}"
    );
    assert!(
        samples.windows(2).all(|w| w[1].0 >= w[0].0),
        "progress went backwards: {samples:?}"
    );
    assert_eq!(samples.last().unwrap().0, total, "did not reach 100%");
    let base = points.len() as u64;
    assert!(samples.iter().any(|&(d, _)| d < base), "no ingest-phase progress");
    assert!(samples.iter().any(|&(d, _)| d >= base), "no serialize-phase progress");

    assert_eq!(file.points(None).len(), points.len(), "point count changed vs input");
}

const MIN_BITS: [u64; 3] = [0xc141739096f9db23, 0xc14bc02dbc28f5c3, 0x4151ebbd7bd70a3e];
const MAX_BITS: [u64; 3] = [0xc14172c92d810625, 0xc14bbf6652b020c5, 0x4151ec21309374bc];
// z is bit-identical to the root's averaged z center; a level-1 upper-z face
// derived from the x edge lands one ULP above it.
const TRAP_POINT_BITS: [u64; 3] = [0xc141733bb6666666, 0xc14bbfc39db22d0e, 0x4151ebef56353f7d];

const SCALE: f64 = 0.001;

fn header_for(min: [f64; 3], max: [f64; 3]) -> las::Header {
    // offsets keep (value - offset) / scale within i32, like any ECEF LAS file
    let offset = [
        ((min[0] + max[0]) / 2.0).round(),
        ((min[1] + max[1]) / 2.0).round(),
        ((min[2] + max[2]) / 2.0).round(),
    ];
    let version = Version::new(1, 4);
    let point_format = Format::new(6).unwrap();
    let raw = las::raw::Header {
        version,
        header_size: version.header_size(),
        offset_to_point_data: u32::from(version.header_size()),
        global_encoding: 16,
        point_data_record_format: point_format.to_u8().unwrap(),
        point_data_record_length: point_format.len(),
        x_scale_factor: SCALE,
        y_scale_factor: SCALE,
        z_scale_factor: SCALE,
        x_offset: offset[0],
        y_offset: offset[1],
        z_offset: offset[2],
        min_x: min[0],
        max_x: max[0],
        min_y: min[1],
        max_y: max[1],
        min_z: min[2],
        max_z: max[2],
        ..Default::default()
    };
    let mut builder = Builder::new(raw).unwrap();
    builder.transforms = Vector {
        x: Transform { scale: SCALE, offset: offset[0] },
        y: Transform { scale: SCALE, offset: offset[1] },
        z: Transform { scale: SCALE, offset: offset[2] },
    };
    builder.vlrs.push(las::Vlr {
        user_id: "LASF_Projection".to_string(),
        record_id: 2112,
        description: "WKT CRS".to_string(),
        data: b"LOCAL_CS[\"copc-rs test\"]".to_vec(),
    });
    builder.into_header().unwrap()
}

#[test]
fn point_on_averaged_center_plane_descends_without_panicking() {
    let min = MIN_BITS.map(f64::from_bits);
    let max = MAX_BITS.map(f64::from_bits);
    let trap = TRAP_POINT_BITS.map(f64::from_bits);

    // Two identical points in one root voxel cell: the first claims the cell,
    // the second must descend to level 1 across the mismatched z face.
    let points: Vec<Point> = (0..2)
        .map(|i| Point {
            x: trap[0],
            y: trap[1],
            z: trap[2],
            gps_time: Some(i as f64),
            return_number: 1,
            number_of_returns: 1,
            ..Default::default()
        })
        .collect();

    let mut file =
        TestFile::create(NAME, header_for(min, max), 1, 64, WriterOptions::default()).unwrap();
    // An inflated advisory count selects the deterministic voxel strategy.
    file.write(points, 1_000).unwrap();
    assert_eq!(2, file.points(None).len());
    assert_eq!(1, file.points(Some(0)).len());
    assert_eq!(1, file.points(Some(1)).len());
}

#[test]
fn the_greedy_strategy_fills_nodes_before_their_octants() {
    let points: Vec<_> = (0..20).map(|i| point_at(10.0, 10.0, i as f64)).collect();
    let mut file =
        TestFile::create(NAME, test_header(), 1, 4, WriterOptions::default()).unwrap();
    // no announced points: greedy, though more points come than a node takes
    file.write(points.clone(), 0).unwrap();
    assert_eq!(times(&points), times(&file.points(None)));
    let mut counts: Vec<(i32, i32)> = file
        .core
        .hierarchy_entries()
        .entries
        .iter()
        .map(|e| (e.key.level, e.point_count))
        .collect();
    counts.sort();
    assert_eq!(counts, vec![(0, 4), (1, 4), (2, 4), (3, 4), (4, 4)]);
    // full chunks are written as soon as they are full
    let levels: Vec<i32> =
        file.core.hierarchy_entries().entries.iter().map(|e| e.key.level).collect();
    assert_eq!(levels, vec![0, 1, 2, 3, 4]);
}

#[test]
fn the_greedy_strategy_spills_without_losing_points() {
    let points = sweep_points(12, 12);
    let options = WriterOptions { memory_budget_bytes: 70, temp_dir: None };
    let mut file = TestFile::create(NAME, test_header(), 1, 5, options).unwrap();
    file.write(points.clone(), -7).unwrap();
    assert_eq!(times(&points), times(&file.points(None)));
    assert!(file.disk.writes > 0);
    assert!(file.no_files_are_left());
    assert_eq!(*file.core.temp_dir(), PathBuf::from("default-spill"));
}

#[test]
fn a_budget_below_one_record_files_every_chunk() {
    let points = sweep_points(3, 3);
    let options = WriterOptions { memory_budget_bytes: 1, temp_dir: None };
    let mut file = TestFile::create(NAME, test_header(), 1, 64, options).unwrap();
    file.write(points.clone(), 1000).unwrap();
    assert_eq!(times(&points), times(&file.points(None)));
    assert!(file.no_files_are_left());
}

#[test]
fn the_first_point_of_a_cell_represents_it_at_the_root() {
    let points = vec![point_at(1.0, 1.0, 0.0), point_at(1.5, 1.5, 1.0), point_at(150.0, 20.0, 2.0)];
    let mut file =
        TestFile::create(NAME, test_header(), 1, 64, WriterOptions::default()).unwrap();
    // the grid has 8 cells along an edge of 200, so the first two share a cell
    file.write(points, 1000).unwrap();
    assert_eq!(times(&file.points(Some(0))), vec![0, 2]);
    assert_eq!(times(&file.points(Some(1))), vec![1]);
}

#[test]
fn points_that_do_not_match_take_precedence_over_points_outside() {
    let outside = point_at(500.0, 10.0, 0.0);
    let mut colored = point_at(10.0, 10.0, 1.0);
    colored.color = Some(las::Color::new(1, 2, 3));
    let good = point_at(20.0, 20.0, 2.0);

    let mut file =
        TestFile::create(NAME, test_header(), 1, 64, WriterOptions::default()).unwrap();
    let res = file.write(vec![outside.clone(), colored, outside.clone(), good.clone()], 4);
    let format = plain_format(file.header.point_format());
    assert!(matches!(
        res,
        Err(Failure::Copc(CopcError::InvalidPoint(PointAddError::PointAttributesDoNotMatch(f))))
            if f == format
    ));
    assert_eq!(times(&file.points(None)), vec![2]);

    let mut file =
        TestFile::create(NAME, test_header(), 1, 64, WriterOptions::default()).unwrap();
    let res = file.write(vec![good, outside], 4);
    assert!(matches!(
        res,
        Err(Failure::Copc(CopcError::InvalidPoint(PointAddError::PointNotInBounds)))
    ));
    assert_eq!(times(&file.points(None)), vec![2]);
}

#[test]
fn a_file_without_points_cannot_be_closed() {
    let mut file =
        TestFile::create(NAME, test_header(), 1, 64, WriterOptions::default()).unwrap();
    assert!(matches!(file.write(vec![], 0), Err(Failure::Copc(CopcError::EmptyCopcFile))));
    assert!(!file.core.is_closed());
    let outside = point_at(-1.0, 0.0, 0.0);
    assert!(matches!(
        file.write(vec![outside], 1),
        Err(Failure::Copc(CopcError::EmptyCopcFile))
    ));
}

#[test]
fn a_closed_writer_takes_no_more_points() {
    let mut file =
        TestFile::create(NAME, test_header(), 1, 64, WriterOptions::default()).unwrap();
    assert!(!file.core.is_closed());
    file.write(vec![point_at(1.0, 1.0, 7.0)], 1).unwrap();
    assert!(file.core.is_closed());
    assert!(matches!(file.core.write(1), Err(CopcError::ClosedWriter)));
    assert!(matches!(file.core.write_cancellable(1), Err(CopcError::ClosedWriter)));
    assert!(matches!(file.core.write_with_progress(1), Err(CopcError::ClosedWriter)));
    let mut session = file.core.closing_session();
    assert!(matches!(file.core.close(&mut session), Err(CopcError::ClosedWriter)));
}

#[test]
fn the_description_covers_the_file() {
    let mut file =
        TestFile::create(NAME, test_header(), 1, 64, WriterOptions::default()).unwrap();
    let fresh = *file.core.copc_info();
    assert_eq!(f64::from_bits(fresh.gpstime_minimum), f64::MAX);
    assert_eq!(f64::from_bits(fresh.gpstime_maximum), f64::MIN);
    let points = vec![point_at(1.0, 1.0, 7.0), point_at(1.0, 1.0, -3.5), point_at(2.0, 9.0, 11.0)];
    file.write(points, 3).unwrap();
    let info = file.core.copc_info();
    assert_eq!(f64::from_bits(info.gpstime_minimum), -3.5);
    assert_eq!(f64::from_bits(info.gpstime_maximum), 11.0);
    assert_eq!(f64::from_bits(info.halfsize), 100.0);
    assert_eq!(floats(&info.center), Vector { x: 100.0, y: 100.0, z: 0.5 });
    assert_eq!(f64::from_bits(info.spacing), 200.0 / 8.0);
    assert_eq!(info.root_hier_offset, file.chunks.len() as u64 + 60);
    assert_eq!(info.root_hier_size, 32 * file.core.hierarchy_entries().entries.len() as u64);
    assert_eq!(file.core.number_of_points(), 3);
    assert_eq!(file.core.start(), 0);
}

#[test]
fn what_follows_the_chunks_starts_with_the_hierarchy() {
    let mut builder = test_builder();
    builder.evlrs.push(las::Vlr {
        user_id: "someone".to_string(),
        record_id: 42,
        description: "kept".to_string(),
        data: vec![1, 2, 3],
    });
    builder.evlrs.push(las::Vlr {
        user_id: "copc".to_string(),
        record_id: 1000,
        description: "another file's".to_string(),
        data: vec![9; 32],
    });
    let header = builder.into_header().unwrap();
    let mut file = TestFile::create(NAME, header, 1, 64, WriterOptions::default()).unwrap();
    let mut session = file.core.write(100).unwrap();
    file.add_point(&mut session, point_at(1.0, 1.0, 0.0)).unwrap();
    file.add_point(&mut session, point_at(1.0, 1.0, 1.0)).unwrap();
    let tail = file.close(&mut session, &mut |_, _| {}).unwrap();

    let mut bytes = tail.as_slice();
    let hierarchy = las::raw::Vlr::read_from(&mut bytes, true).unwrap();
    let kept = las::raw::Vlr::read_from(&mut bytes, true).unwrap();
    assert!(bytes.is_empty());
    assert_eq!(hierarchy.record_id, 1000);
    assert_eq!(&hierarchy.user_id[..5], b"copc\0");
    assert_eq!(hierarchy.data.len() as u64, file.core.copc_info().root_hier_size);
    assert_eq!(&tail[60..60 + hierarchy.data.len()], hierarchy.data.as_slice());
    assert_eq!(kept.record_id, 42);
    assert_eq!(kept.data, vec![1, 2, 3]);
    assert_eq!(file.header.evlrs().len(), 1);
    assert_eq!(
        evlr_field(
            Some(EvlrField { start_of_first_evlr: 5, number_of_evlrs: 1 }),
            1000,
        ),
        EvlrField { start_of_first_evlr: 1000, number_of_evlrs: 2 },
    );
    assert_eq!(
        evlr_field(None, 7),
        EvlrField { start_of_first_evlr: 7, number_of_evlrs: 1 },
    );
}

#[test]
fn the_header_starts_with_the_writers_own_records() {
    let file = TestFile::create(NAME, test_header(), 1, 64, WriterOptions::default()).unwrap();
    let vlrs = file.header.vlrs();
    assert_eq!(vlrs.len(), 3);
    assert_eq!((vlrs[0].user_id.as_str(), vlrs[0].record_id), ("copc", 1));
    assert_eq!(vlrs[0].data, vec![0; 160]);
    assert!(las::laz::is_laszip_vlr(&vlrs[1]));
    assert_eq!(vlrs[1].description, laz::LazVlr::DESCRIPTION);
    assert_eq!((vlrs[2].user_id.as_str(), vlrs[2].record_id), ("LASF_Projection", 2112));
    assert!(file.header.laz_vlr().unwrap().uses_variable_size_chunks());
    assert_eq!(file.header.generating_software(), "COPC-rs v0.5.0");
    assert!(file.header.has_wkt_crs());
    assert!(file.header.point_format().is_compressed);
}

#[test]
fn older_formats_are_upgraded() {
    for (old, new, growth) in [(1, 6, 2), (3, 7, 2), (6, 6, 0), (7, 7, 0), (8, 8, 0)] {
        let mut builder = test_builder();
        builder.point_format = Format::new(old).unwrap();
        let header = builder.into_header().unwrap();
        let length = header.point_format().len();
        let file = TestFile::create(NAME, header, 1, 64, WriterOptions::default()).unwrap();
        assert_eq!(file.header.point_format().to_u8().unwrap() & 0x3f, new);
        assert_eq!(file.header.point_format().len(), length + growth);
        assert_eq!(file.header.point_format().extra_bytes, 0);
    }
}

#[test]
fn file_names_need_both_extensions() {
    let create = |name| TestFile::create(name, test_header(), 1, 64, WriterOptions::default());
    assert!(create((Some("CoPc"), Some("LAZ"))).is_ok());
    for name in [
        (None, Some("laz")),
        (Some("copc"), None),
        (None, None),
        (Some("copc"), Some("las")),
        (Some("cop"), Some("laz")),
        (Some("laz"), Some("copc")),
    ] {
        assert!(matches!(create(name), Err(CopcError::WrongCopcExtension)));
    }
}

#[test]
fn the_most_detailed_level_comes_from_the_scale() {
    // 200 / 0.001 needs 18 halvings
    let file = TestFile::create(NAME, test_header(), 1, 64, WriterOptions::default()).unwrap();
    assert_eq!(file.core.max_voxel_level(), 18);
    assert_eq!(file.core.voxel_grid_size(), 8);
    assert_eq!((file.core.min_node_size(), file.core.max_node_size()), (1, 64));
}

#[test]
fn every_node_is_entered_once() {
    for (max, announced) in [(4, 0), (7, -1), (64, 5000)] {
        let points = sweep_points(30, 30);
        let mut file =
            TestFile::create(NAME, test_header(), 1, max, WriterOptions::default()).unwrap();
        file.write(points.clone(), announced).unwrap();
        let entries = &file.core.hierarchy_entries().entries;
        let keys: HashSet<u128> = entries.iter().map(|e| e.key.to_code()).collect();
        assert_eq!(keys.len(), entries.len());
        assert_eq!(entries.iter().map(|e| e.point_count as usize).sum::<usize>(), points.len());
        if announced < 1 {
            // no node of the greedy strategy has more points than it takes
            assert!(entries.iter().all(|e| e.point_count <= max));
        }
    }
}

#[test]
fn the_root_has_one_point_for_each_cell_that_was_reached() {
    let points = sweep_points(40, 40);
    let mut file =
        TestFile::create(NAME, test_header(), 1, 64, WriterOptions::default()).unwrap();
    file.write(points, 1600).unwrap();
    // 8 by 8 cells are reached, all in one layer
    assert_eq!(file.points(Some(0)).len(), 64);
    // the next level has 16 by 16 cells
    assert_eq!(file.points(Some(1)).len(), 256);
    let info = file.core.copc_info();
    assert_eq!(f64::from_bits(info.spacing), 25.0);
}

fn entries_of(file: &TestFile) -> Vec<(VoxelKey, i32)> {
    file.core.hierarchy_entries().entries.iter().map(|e| (e.key, e.point_count)).collect()
}

fn is_connected(file: &TestFile) -> bool {
    let keys: HashSet<u128> = entries_of(file).iter().map(|(key, _)| key.to_code()).collect();
    entries_of(file)
        .iter()
        .all(|(key, _)| key.level == 0 || keys.contains(&key.enclosing().to_code()))
}

#[test]
fn two_points_in_one_place_share_a_node_where_nodes_need_two() {
    let points = vec![point_at(10.0, 10.0, 0.0), point_at(10.0, 10.0, 1.0)];
    let mut file =
        TestFile::create(NAME, test_header(), 2, 64, WriterOptions::default()).unwrap();
    file.write(points.clone(), 66).unwrap();
    let root = VoxelKey { level: 0, x: 0, y: 0, z: 0 };
    assert_eq!(entries_of(&file), vec![(root, 2)]);
    assert_eq!(times(&points), times(&file.points(None)));
}

#[test]
fn no_node_has_fewer_points_than_the_least_size() {
    for (min, max, announced) in
        [(2, 64, 5000), (10, 64, 5000), (40, 64, 5000), (300, 1000, 5000), (3, 5, 0), (6, 7, 0)]
    {
        for points in [
            sweep_points(30, 30),
            (0..if announced == 0 { 100 } else { 900 })
                .map(|i| point_at(100.0, 100.0, i as f64))
                .collect(),
        ] {
            let options = WriterOptions { memory_budget_bytes: 3000, temp_dir: None };
            let mut file = TestFile::create(NAME, test_header(), min, max, options).unwrap();
            file.write(points.clone(), announced).unwrap();
            assert!(entries_of(&file).iter().all(|(_, count)| *count >= min));
            assert_eq!(times(&points), times(&file.points(None)));
            assert!(is_connected(&file));
            assert!(file.no_files_are_left());
        }
    }
}

#[test]
fn fewer_points_than_the_least_size_are_in_one_node() {
    let points = sweep_points(3, 3);
    for announced in [0, 5000] {
        let mut file =
            TestFile::create(NAME, test_header(), 20, 64, WriterOptions::default()).unwrap();
        file.write(points.clone(), announced).unwrap();
        assert_eq!(entries_of(&file), vec![(VoxelKey { level: 0, x: 0, y: 0, z: 0 }, 9)]);
        assert_eq!(times(&points), times(&file.points(None)));
    }
}

#[test]
fn memory_and_watchers_have_no_part_in_the_file() {
    let points = sweep_points(40, 40);
    for (min, max, announced) in [(1, 64, 1600), (9, 20, 1600), (3, 7, 0)] {
        let create = |budget| {
            let options = WriterOptions { memory_budget_bytes: budget, temp_dir: None };
            TestFile::create(NAME, test_header(), min, max, options).unwrap()
        };
        let mut plain = create(u64::MAX);
        plain.write(points.clone(), announced).unwrap();
        let mut tight = create(400);
        tight.write(points.clone(), announced).unwrap();
        let mut asked = create(10_000);
        asked.write_cancellable(points.clone(), announced, || false).unwrap();
        let mut watched = create(1);
        watched.write_with_progress(points.clone(), announced, |_, _| {}).unwrap();
        assert_eq!(plain.disk.writes, 0);
        assert!(tight.disk.writes > 0 && watched.disk.writes > 0);
        for other in [tight, asked, watched] {
            assert_eq!(entries_of(&plain), entries_of(&other));
            assert_eq!(plain.chunks, other.chunks);
            assert_eq!(plain.core.copc_info(), other.core.copc_info());
        }
    }
}

#[test]
fn progress_never_runs_past_the_total_or_back() {
    let points = sweep_points(100, 100);
    for announced in [1, 4000, 9000, 20_000, 0] {
        let mut file =
            TestFile::create(NAME, test_header(), 1, 64, WriterOptions::default()).unwrap();
        let mut samples: Vec<(u64, u64)> = Vec::new();
        file.write_with_progress(points.clone(), announced, |done, total| {
            samples.push((done, total));
        })
        .unwrap();
        let total = if announced == 0 { 1 } else { 2 * announced as u64 };
        assert!(samples.iter().all(|&(done, t)| done <= t && t == total));
        assert!(samples.windows(2).all(|w| w[0].0 <= w[1].0));
        assert_eq!(samples.last(), Some(&(total, total)));
    }
}

#[test]
fn the_last_report_comes_however_things_end() {
    let mut file =
        TestFile::create(NAME, test_header(), 1, 64, WriterOptions::default()).unwrap();
    let mut last = None;
    let res = file.write_with_progress(vec![], 10, |done, total| last = Some((done, total)));
    assert!(matches!(res, Err(Failure::Copc(CopcError::EmptyCopcFile))));
    assert_eq!(last, Some((20, 20)));

    let outside = point_at(500.0, 10.0, 0.0);
    let good = point_at(20.0, 20.0, 2.0);
    let res = file
        .write_with_progress(vec![outside, good], 3, |done, total| last = Some((done, total)));
    assert!(matches!(
        res,
        Err(Failure::Copc(CopcError::InvalidPoint(PointAddError::PointNotInBounds)))
    ));
    assert_eq!(last, Some((6, 6)));
}

#[test]
fn sizes_may_be_as_large_as_can_be() {
    let points = vec![point_at(1.0, 1.0, 0.0), point_at(1.0, 1.0, 1.0)];
    let mut file =
        TestFile::create(NAME, test_header(), 1, i32::MAX, WriterOptions::default()).unwrap();
    file.write(points, 0).unwrap();
    assert_eq!(entries_of(&file), vec![(VoxelKey { level: 0, x: 0, y: 0, z: 0 }, 2)]);
    assert!(matches!(file.core.write(0), Err(CopcError::ClosedWriter)));
    assert!(matches!(file.core.write_cancellable(i32::MAX), Err(CopcError::ClosedWriter)));
    assert!(matches!(file.core.write_with_progress(-1), Err(CopcError::ClosedWriter)));
}

const ROOT: VoxelKey = VoxelKey { level: 0, x: 0, y: 0, z: 0 };

fn corner_points(n: i32) -> Vec<Point> {
    (0..n).map(|i| Point { z: 0.75, ..point_at(150.0, 150.0, f64::from(i)) }).collect()
}

#[test]
fn a_full_root_is_entered_at_once() {
    let mut file =
        TestFile::create(NAME, test_header(), 1, 4, WriterOptions::default()).unwrap();
    let mut session = file.core.write(0).unwrap();
    let octant = VoxelKey { level: 1, x: 1, y: 1, z: 1 };
    for (i, point) in corner_points(5).into_iter().enumerate() {
        file.add_point(&mut session, point).unwrap();
        assert_eq!(entries_of(&file).len(), usize::from(i >= 3));
    }
    assert_eq!(file.core.number_of_points(), 5);
    assert_eq!(entries_of(&file), vec![(ROOT, 4)]);
    assert!(file.core.chunk(&ROOT).is_none());
    assert_eq!(file.core.chunk(&octant).unwrap().point_count(&octant), 1);
    file.close(&mut session, &mut |_, _| {}).unwrap();
    assert_eq!(entries_of(&file), vec![(ROOT, 4), (octant, 1)]);
}

#[test]
fn a_full_root_waits_for_small_nodes_where_they_are_too_small() {
    let mut file =
        TestFile::create(NAME, test_header(), 2, 4, WriterOptions::default()).unwrap();
    let mut session = file.core.write(0).unwrap();
    for point in corner_points(9) {
        file.add_point(&mut session, point).unwrap();
    }
    let octant = VoxelKey { level: 1, x: 1, y: 1, z: 1 };
    assert_eq!(entries_of(&file), vec![(octant, 4)]);
    assert_eq!(file.core.chunk(&ROOT).unwrap().point_count(&ROOT), 4);
    file.close(&mut session, &mut |_, _| {}).unwrap();
    assert_eq!(entries_of(&file), vec![(octant, 4), (ROOT, 5)]);
}

#[test]
fn a_full_root_leaves_nothing_to_report_when_the_file_is_closed() {
    let mut file =
        TestFile::create(NAME, test_header(), 1, 4, WriterOptions::default()).unwrap();
    let mut samples: Vec<(u64, u64)> = Vec::new();
    file.write_with_progress(corner_points(4), 4, |done, total| samples.push((done, total)))
        .unwrap();
    assert_eq!(samples, vec![(0, 8), (8, 8)]);
    assert_eq!(entries_of(&file), vec![(ROOT, 4)]);
}

#[test]
fn a_cancelled_write_keeps_the_entries_of_full_nodes() {
    let mut file =
        TestFile::create(NAME, test_header(), 1, 5000, WriterOptions::default()).unwrap();
    let mut polls = 0;
    let res = file.write_cancellable(corner_points(9000), 0, || {
        polls += 1;
        polls > 2
    });
    assert!(matches!(res, Err(Failure::Copc(CopcError::Cancelled))));
    assert_eq!(entries_of(&file), vec![(ROOT, 5000)]);
}

#[test]
fn nothing_is_put_together_where_one_point_is_enough() {
    let points = sweep_points(30, 30);
    let mut file =
        TestFile::create(NAME, test_header(), 1, 64, WriterOptions::default()).unwrap();
    let mut session = file.core.write(5000).unwrap();
    for point in points {
        file.add_point(&mut session, point).unwrap();
    }
    let mut reports = 0;
    let mut action = file.core.close(&mut session).unwrap();
    while let Action::Compress { group } = action {
        assert_eq!(group.parts.len(), 1);
        assert_eq!(group.parts[0].0, group.key);
        let (offset, size, count) = file.compress(group);
        action = file.core.chunk_closed(&mut session, offset, size, count).0;
        reports += 1;
    }
    assert_eq!(entries_of(&file).len(), reports);
}

#[test]
fn reports_differ_in_whole_percent() {
    let points = sweep_points(200, 200);
    for announced in [40_000, 30_000, 123_457] {
        let mut file =
            TestFile::create(NAME, test_header(), 1, 64, WriterOptions::default()).unwrap();
        let mut samples: Vec<u64> = Vec::new();
        file.write_with_progress(points.clone(), announced, |done, total| {
            samples.push(done * 100 / total);
        })
        .unwrap();
        samples.pop();
        assert!(samples.len() <= 101);
        assert!(samples.windows(2).all(|w| w[0] < w[1]));
    }
}
