use copc_writer::ingest::{is_sampled, uses_greedy};
use copc_writer::writer::{are_copc_extensions, node_sizes};
use copc_writer::{
    plan_file, Admission, Bounds, CopcError, CopcWriter, FormatFields, HeaderInfo, Placement,
    PointAddError, PointAttributes, PointFormat, PointInfo, Position, Progress, UpgradePdrf, Vlr,
};
use std::path::PathBuf;

fn at(x: f64, y: f64, z: f64) -> Position {
    Position { x: x.to_bits(), y: y.to_bits(), z: z.to_bits() }
}

fn cube() -> Bounds {
    Bounds { min: at(0.0, 0.0, 0.0), max: at(8.0, 8.0, 8.0) }
}

fn wkt() -> Vlr {
    Vlr {
        user_id: "LASF_Projection".to_string(),
        record_id: 2112,
        description: String::new(),
        data: b"LOCAL_CS".to_vec(),
    }
}

fn header(vlrs: Vec<Vlr>, extent: Position, format: u8) -> HeaderInfo {
    HeaderInfo {
        vlrs,
        evlrs: vec![],
        bounds: cube(),
        extent,
        fields: Ok(FormatFields { format, record_length: 30, global_encoding: 1 }),
    }
}

fn format_6() -> PointFormat {
    PointFormat {
        has_gps_time: true,
        has_color: false,
        is_extended: true,
        has_waveform: false,
        has_nir: false,
        extra_bytes: 0,
        is_compressed: true,
    }
}

fn attributes() -> PointAttributes {
    PointAttributes {
        has_gps_time: true,
        has_color: false,
        has_waveform: false,
        has_nir: false,
        extra_bytes: 0,
    }
}

#[test]
fn sizes_below_one_stand_for_the_defaults() {
    assert_eq!(node_sizes(0, 0).unwrap(), (256, 16384));
    assert_eq!(node_sizes(-9, 300).unwrap(), (256, 300));
    assert_eq!(node_sizes(1, 64).unwrap(), (1, 64));
    assert_eq!(node_sizes(16383, 0).unwrap(), (16383, 16384));
    assert!(matches!(node_sizes(64, 64), Err(CopcError::InvalidNodeSize)));
    assert!(matches!(node_sizes(0, 256), Err(CopcError::InvalidNodeSize)));
    assert!(matches!(node_sizes(20000, 0), Err(CopcError::InvalidNodeSize)));
}

#[test]
fn a_plan_has_the_sizes_the_records_and_the_format() {
    let plan = plan_file(header(vec![wkt()], at(8.0, 8.0, 8.0), 1), 0, 0).unwrap();
    assert_eq!((plan.min_node_size, plan.max_node_size), (256, 16384));
    assert_eq!(plan.vlrs.len(), 1);
    assert!(plan.evlrs.is_empty());
    assert_eq!(plan.upgrade, UpgradePdrf::From1to6);
    assert_eq!(
        plan.header.fields,
        FormatFields { format: 0xc6, record_length: 32, global_encoding: 17 },
    );
    assert_eq!(plan.header.version, (1, 4));
    assert_eq!(plan.header.number_of_point_records, 0);
    assert_eq!(plan.header.number_of_points_by_return, [0; 5]);
    assert_eq!(plan.header.large_file, None);
    assert_eq!(plan.header.evlr, None);
    assert!(plan.header.padding.is_empty());
}

#[test]
fn the_first_thing_that_is_wrong_is_the_error() {
    let flat = at(8.0, 0.0, 8.0);
    let good = at(8.0, 8.0, 8.0);
    // everything is wrong: the sizes come first
    let res = plan_file(header(vec![], flat, 0), 5, 5);
    assert!(matches!(res, Err(CopcError::InvalidNodeSize)));
    let res = plan_file(header(vec![], flat, 0), 1, 5);
    assert!(matches!(res, Err(CopcError::InvalidCrs(_))));
    let res = plan_file(header(vec![wkt()], flat, 0), 1, 5);
    assert!(matches!(res, Err(CopcError::InvalidBounds(b)) if b == cube()));
    let mut unreadable = header(vec![wkt()], good, 0);
    unreadable.fields = Err(las::Error::PointPaddingNotAllowed);
    let res = plan_file(unreadable, 1, 5);
    assert!(matches!(res, Err(CopcError::InvalidHeader(las::Error::PointPaddingNotAllowed))));
    let res = plan_file(header(vec![wkt()], good, 0), 1, 5);
    assert!(matches!(res, Err(CopcError::InvalidPointFormat(f)) if !f.has_gps_time));
    let res = plan_file(header(vec![wkt()], good, 0x8a), 1, 5);
    assert!(matches!(res, Err(CopcError::InvalidPointFormat(f)) if f.has_nir && f.has_waveform));
    let res = plan_file(header(vec![wkt()], good, 11), 1, 5);
    assert!(matches!(res, Err(CopcError::InvalidPointFormatNumber(11))));
    assert!(plan_file(header(vec![wkt()], good, 6), 1, 5).is_ok());
}

#[test]
fn bounds_need_a_volume_along_every_axis() {
    for extent in [
        at(0.0, 1.0, 1.0),
        at(1.0, f64::NAN, 1.0),
        at(1.0, 1.0, f64::INFINITY),
        at(5e-324, 1.0, 1.0),
    ] {
        let res = plan_file(header(vec![wkt()], extent, 6), 1, 5);
        assert!(matches!(res, Err(CopcError::InvalidBounds(_))));
    }
    // the sign does not matter
    assert!(plan_file(header(vec![wkt()], at(-1.0, 1.0, 1.0), 6), 1, 5).is_ok());
}

#[test]
fn extensions_are_compared_in_lower_case() {
    assert!(are_copc_extensions("copc", "laz"));
    assert!(!are_copc_extensions("COPC", "laz"));
    assert!(!are_copc_extensions("laz", "copc"));
}

#[test]
fn few_points_use_the_greedy_strategy() {
    assert!(uses_greedy(0, 1, i32::MAX));
    assert!(uses_greedy(i32::MAX, 1, i32::MAX));
    assert!(!uses_greedy(i32::MAX, 1, i32::MAX - 1));
    assert!(uses_greedy(64, 1, 64));
    assert!(!uses_greedy(65, 1, 64));
    assert!(uses_greedy(-1, 256, 16384));
    assert!(is_sampled(0));
    assert!(is_sampled(8192));
    assert!(!is_sampled(4095));
}

#[test]
fn the_first_error_about_bounds_gives_way_to_one_about_attributes() {
    let mut admission = Admission::new();
    let other = PointAttributes { extra_bytes: 1, ..attributes() };
    let inside = at(1.0, 1.0, 1.0);
    let outside = at(1.0, 9.0, 1.0);
    assert!(admission.accept(&attributes(), &inside, &format_6(), &cube()));
    assert!(admission.outcome().is_ok());
    assert!(!admission.accept(&attributes(), &outside, &format_6(), &cube()));
    assert!(matches!(
        admission.outcome(),
        Err(CopcError::InvalidPoint(PointAddError::PointNotInBounds))
    ));
    // a point that is wrong in both ways counts for its attributes
    assert!(!admission.accept(&other, &outside, &format_6(), &cube()));
    let about_attributes = PointAddError::PointAttributesDoNotMatch(format_6());
    assert!(matches!(admission.outcome(), Err(CopcError::InvalidPoint(e)) if e == about_attributes));
    assert!(!admission.accept(&attributes(), &outside, &format_6(), &cube()));
    assert!(admission.accept(&attributes(), &inside, &format_6(), &cube()));
    assert!(matches!(admission.outcome(), Err(CopcError::InvalidPoint(e)) if e == about_attributes));
}

#[test]
fn attributes_match_as_las_matches_them() {
    for number in [6u8, 7, 8, 9, 10] {
        let format = las::point::Format::new(number).unwrap();
        for color in [false, true] {
            for nir in [false, true] {
                for extra in [0usize, 3] {
                    let point = las::Point {
                        gps_time: Some(0.0),
                        color: color.then_some(las::Color::default()),
                        nir: nir.then_some(1),
                        extra_bytes: vec![0; extra],
                        ..Default::default()
                    };
                    let attributes = PointAttributes {
                        has_color: color,
                        has_nir: nir,
                        extra_bytes: extra,
                        ..attributes()
                    };
                    let plain = PointFormat {
                        has_color: format.has_color,
                        has_nir: format.has_nir,
                        has_waveform: format.has_waveform,
                        ..format_6()
                    };
                    assert_eq!(attributes.matches(&plain), point.matches(&format));
                }
            }
        }
    }
}

#[test]
fn progress_is_reported_when_the_percentage_changes() {
    let mut progress = Progress::new(10_000);
    assert_eq!(progress.taking_in(0), Some((0, 20_000)));
    assert_eq!(progress.taking_in(1), None);
    assert_eq!(progress.taking_in(4096), Some((4096, 20_000)));
    assert_eq!(progress.taking_in(8192), Some((8192, 20_000)));
    assert_eq!(progress.compressed(0), Some((10_000, 20_000)));
    // not a whole percent yet
    assert_eq!(progress.compressed(100), None);
    assert_eq!(progress.compressed(100), Some((10_200, 20_000)));
    assert_eq!(progress.compressed(9_800), Some((20_000, 20_000)));
    // more than announced stays at the total
    assert_eq!(progress.compressed(u64::MAX), None);
    assert_eq!(progress.finish(), (20_000, 20_000));
}

#[test]
fn more_points_than_announced_count_as_those_announced() {
    let mut progress = Progress::new(1);
    assert_eq!(progress.taking_in(0), Some((0, 2)));
    assert_eq!(progress.taking_in(4096), Some((1, 2)));
    assert_eq!(progress.taking_in(u64::MAX - u64::MAX % 4096), None);
    assert_eq!(progress.compressed(4097), Some((2, 2)));
    // nothing goes back
    assert_eq!(progress.taking_in(0), None);
}

#[test]
fn without_announced_points_the_total_is_one() {
    for announced in [0, -5] {
        let mut progress = Progress::new(announced);
        assert_eq!(progress.taking_in(0), Some((0, 1)));
        assert_eq!(progress.compressed(3), Some((1, 1)));
        assert_eq!(progress.finish(), (1, 1));
    }
}

fn writer(min: i32, max: i32) -> CopcWriter {
    let place = Placement {
        start: 100,
        points_start: 1000,
        center: at(4.0, 4.0, 4.0),
        halfsize: 4.0f64.to_bits(),
        edge: 8.0f64.to_bits(),
        cube: cube(),
        scale: at(1.0, 1.0, 1.0),
        halvings: 3,
        format: format_6(),
    };
    CopcWriter::new(min, max, &place, PathBuf::from("spill")).unwrap()
}

#[test]
fn a_new_writer_is_open_and_empty() {
    let writer = writer(2, 9);
    assert!(!writer.is_closed());
    assert_eq!((writer.min_node_size(), writer.max_node_size()), (2, 9));
    assert_eq!(writer.start(), 100);
    assert_eq!(writer.number_of_points(), 0);
    assert_eq!(writer.max_voxel_level(), 3);
    assert_eq!(writer.voxel_grid_size(), 3);
    assert!(writer.hierarchy_entries().entries.is_empty());
    assert!(writer.leftover_files().is_empty());
    assert_eq!(*writer.temp_dir(), PathBuf::from("spill"));
}

#[test]
fn sessions_differ_in_what_they_ask_and_report() {
    let writer = writer(2, 9);
    let mut plain = writer.write(10).unwrap();
    let mut cancellable = writer.write_cancellable(11).unwrap();
    let mut reporting = writer.write_with_progress(4097).unwrap();
    assert!(plain.is_greedy());
    assert!(!cancellable.is_greedy());
    for i in 0..9000u64 {
        let prompt = plain.next_point();
        assert!(!prompt.ask && prompt.report.is_none());
        let prompt = cancellable.next_point();
        assert_eq!(prompt.ask, i % 4096 == 0);
        assert!(prompt.report.is_none());
        let prompt = reporting.next_point();
        assert!(!prompt.ask);
        let expected = if i % 4096 == 0 { Some((i.min(4097), 8194)) } else { None };
        assert_eq!(prompt.report, expected);
    }
    assert_eq!(plain.points_offered(), 9000);
    assert!(matches!(plain.conclude(Ok::<(), u8>(())), (Ok(Ok(())), None)));
    assert!(matches!(
        reporting.conclude(Err::<(), u8>(7)),
        (Err(7), Some((8194, 8194)))
    ));
}

#[test]
fn a_point_without_a_time_counts_as_taken_at_zero() {
    let mut writer = writer(2, 9);
    let mut session = writer.write(100).unwrap();
    let mut point = PointInfo {
        position: at(1.0, 1.0, 1.0),
        attributes: attributes(),
        gps_time: Some(5.0f64.to_bits()),
    };
    writer.offer_point(&mut session, &point);
    let info = *writer.copc_info();
    assert_eq!(f64::from_bits(info.gpstime_minimum), 5.0);
    assert_eq!(f64::from_bits(info.gpstime_maximum), 5.0);
    let mut other = writer.write(100).unwrap();
    point.gps_time = None;
    writer.offer_point(&mut other, &point);
    assert_eq!(f64::from_bits(writer.copc_info().gpstime_minimum), 0.0);
    assert_eq!(f64::from_bits(writer.copc_info().gpstime_maximum), 5.0);
    assert_eq!(writer.number_of_points(), 2);
}
