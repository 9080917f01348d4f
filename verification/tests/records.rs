use copc_writer::bytes::{push_i32, push_little_endian, push_zeros};
use copc_writer::compression::laz_vlr;
use copc_writer::crs::{crs_record, plan_records};
use copc_writer::hierarchy::{CopcInfo, Entry, HierarchyPage};
use copc_writer::point_format::{generating_software, upgrade_for};
use copc_writer::record::{forward_records, record_bytes, role_of, write_records, RecordRole};
use copc_writer::{CopcError, FormatFields, PointFormat, Position, UpgradePdrf, Vlr, VoxelKey};

fn vlr(user_id: &str, record_id: u16, data: Vec<u8>) -> Vlr {
    Vlr { user_id: user_id.to_string(), record_id, description: "about".to_string(), data }
}

fn words(words: &[u16]) -> Vec<u8> {
    words.iter().flat_map(|w| w.to_le_bytes()).collect()
}

/// A GeoTIFF key directory for a projected coordinate reference system.
fn geotiff(code: u16) -> Vlr {
    vlr("LASF_Projection", 34735, words(&[1, 1, 0, 2, 1024, 0, 1, 1, 3072, 0, 1, code]))
}

fn format_number(number: u8) -> PointFormat {
    let format = las::point::Format::new(number).unwrap();
    PointFormat {
        has_gps_time: format.has_gps_time,
        has_color: format.has_color,
        is_extended: format.is_extended,
        has_waveform: format.has_waveform,
        has_nir: format.has_nir,
        extra_bytes: format.extra_bytes,
        is_compressed: format.is_compressed,
    }
}

#[test]
fn numbers_are_written_with_the_least_byte_first() {
    let mut out = vec![9];
    push_little_endian(&mut out, 0x0102_0304_0506_0708, 8);
    push_little_endian(&mut out, 0xabcd, 2);
    push_i32(&mut out, -2);
    push_i32(&mut out, 0x0102_0304);
    push_zeros(&mut out, 3);
    assert_eq!(
        out,
        [
            9, 8, 7, 6, 5, 4, 3, 2, 1, 0xcd, 0xab, 0xfe, 0xff, 0xff, 0xff, 4, 3, 2, 1, 0, 0, 0
        ],
    );
}

#[test]
fn records_of_the_layout_and_of_geotiff_are_left_out() {
    let dropped = [
        ("lasf_projection", 34735),
        ("lasf_projection", 34736),
        ("lasf_projection", 34737),
        ("copc", 1),
        ("copc", 1000),
        ("laszip encoded", 22204),
        ("lasf_spec", 100),
        ("lasf_spec", 354),
        ("lasf_spec", 65535),
    ];
    for (user, id) in dropped {
        assert_eq!(role_of(user, id), RecordRole::Dropped, "{user} {id}");
    }
    let kept = [
        ("lasf_projection", 34734),
        ("lasf_projection", 34738),
        ("lasf_projection", 2111),
        ("copc", 2),
        ("laszip encoded", 1),
        ("lasf_spec", 99),
        ("lasf_spec", 355),
        ("lasf_spec", 4),
        ("", 0),
        ("LASF_Projection", 2112),
    ];
    for (user, id) in kept {
        assert_eq!(role_of(user, id), RecordRole::Forwarded, "{user} {id}");
    }
    assert_eq!(role_of("lasf_projection", 2112), RecordRole::WktCrs);
}

#[test]
fn kept_records_stay_in_order_and_user_names_have_any_case() {
    let records = vec![
        vlr("someone", 1, vec![1]),
        vlr("COPC", 1, vec![2]),
        vlr("LASF_PROJECTION", 2112, vec![3]),
        vlr("LasZip Encoded", 22204, vec![4]),
        vlr("someone", 2, vec![5]),
    ];
    let (kept, wkt) = forward_records(&records);
    assert!(wkt);
    let data: Vec<u8> = kept.iter().map(|r| r.data[0]).collect();
    assert_eq!(data, vec![1, 3, 5]);
    assert_eq!(kept[1].user_id, "LASF_PROJECTION");
    assert_eq!(kept[1].description, "about");
    assert!(!forward_records(&kept[..1].iter().map(|r| r.duplicate()).collect()).1);
}

#[test]
fn a_reference_system_as_text_is_kept_as_it_is() {
    let vlrs = vec![vlr("LASF_Projection", 2112, b"LOCAL_CS".to_vec()), geotiff(4326)];
    let (kept, extended) = plan_records(&vlrs, &vec![]).unwrap();
    assert_eq!(kept.len(), 1);
    assert_eq!(kept[0].data, b"LOCAL_CS");
    assert!(extended.is_empty());
    // among the extended records it counts too
    let (kept, extended) = plan_records(&vec![], &vlrs).unwrap();
    assert!(kept.is_empty());
    assert_eq!(extended.len(), 1);
}

#[test]
fn a_reference_system_in_geotiff_form_is_replaced_by_its_definition() {
    let vlrs = vec![vlr("someone", 1, vec![]), geotiff(25832)];
    let (kept, _) = plan_records(&vlrs, &vec![]).unwrap();
    assert_eq!(kept.len(), 2);
    assert_eq!(kept[0].record_id, 1);
    assert_eq!((kept[1].user_id.as_str(), kept[1].record_id), ("LASF_Projection", 2112));
    assert_eq!(kept[1].description, "");
    assert_eq!(kept[1].data, crs_definitions::EPSG_25832.wkt.as_bytes());
    let (kept, extended) = plan_records(&vec![], &vec![geotiff(4326)]).unwrap();
    assert_eq!(kept[0].data, crs_definitions::EPSG_4326.wkt.as_bytes());
    assert!(extended.is_empty());
}

#[test]
fn a_reference_system_is_mandatory() {
    let none = plan_records(&vec![vlr("someone", 1, vec![])], &vec![]);
    assert!(matches!(none, Err(CopcError::InvalidCrs(las_crs::CrsError::NoCrs))));
    let unreadable = plan_records(&vec![vlr("LASF_Projection", 34735, vec![1])], &vec![]);
    assert!(matches!(unreadable, Err(CopcError::InvalidCrs(_))));
    let unknown = plan_records(&vec![geotiff(1)], &vec![]);
    assert!(matches!(unknown, Err(CopcError::InvalidEPSGCode(1))));
}

#[test]
fn the_record_of_a_reference_system_holds_its_definition() {
    let record = crs_record(7, Some("GEOGCS")).unwrap();
    assert_eq!(record.data, b"GEOGCS");
    assert_eq!(record.record_id, 2112);
    assert!(matches!(crs_record(7, None), Err(CopcError::InvalidEPSGCode(7))));
}

#[test]
fn a_record_is_laid_out_as_las_lays_it_out() {
    let record = vlr("someone", 0x1234, vec![7, 8, 9]);
    for extended in [false, true] {
        let bytes = record_bytes(&record, extended).unwrap();
        assert_eq!(bytes.len(), if extended { 60 } else { 54 } + 3);
        let read = las::Vlr::new(las::raw::Vlr::read_from(bytes.as_slice(), extended).unwrap());
        assert_eq!(read.user_id, "someone");
        assert_eq!(read.record_id, 0x1234);
        assert_eq!(read.description, "about");
        assert_eq!(read.data, vec![7, 8, 9]);
        assert_eq!(&bytes[18..20], &[0x34, 0x12]);
        assert_eq!(&bytes[20..22], &[3, 0]);
    }
}

#[test]
fn a_record_that_does_not_fit_its_header_is_an_error() {
    let long_name = vlr("seventeen letters", 1, vec![]);
    assert!(matches!(record_bytes(&long_name, true), Err(CopcError::InvalidRecord(_))));
    assert!(record_bytes(&vlr("sixteen  letters", 1, vec![]), true).is_ok());
    let mut long_text = vlr("x", 1, vec![]);
    long_text.description = "d".repeat(33);
    assert!(record_bytes(&long_text, false).is_err());
    let large = vlr("x", 1, vec![0; 65536]);
    assert!(record_bytes(&large, false).is_err());
    assert!(record_bytes(&large, true).is_ok());
    assert!(record_bytes(&vlr("x", 1, vec![0; 65535]), false).is_ok());
    // umlauts take two bytes
    assert!(record_bytes(&vlr("äöüäöüäöü", 1, vec![]), false).is_err());

    let mut out = vec![1];
    let res = write_records(&mut out, &vec![vlr("x", 1, vec![2]), large], false);
    assert!(matches!(res, Err(CopcError::InvalidRecord(_))));
    assert_eq!(out[0], 1);
    let mut out = vec![1];
    write_records(&mut out, &vec![vlr("x", 1, vec![2]), vlr("y", 2, vec![3, 4])], false).unwrap();
    assert_eq!(out.len(), 1 + 55 + 56);
    assert_eq!((out[0], out[55], out[110], out[111]), (1, 2, 3, 4));
}

#[test]
fn the_compression_record_is_the_one_laz_reads() {
    for (number, extra, sizes) in [
        (0x86u8, 0u16, vec![30u16]),
        (0x87, 0, vec![30, 6]),
        (0x88, 0, vec![30, 8]),
        (0x86, 5, vec![30, 5]),
        (0x88, 2, vec![30, 8, 2]),
    ] {
        let mut format = format_number(number);
        format.extra_bytes = extra;
        let record = laz_vlr(&format);
        assert_eq!(record.user_id, laz::LazVlr::USER_ID);
        assert_eq!(record.record_id, laz::LazVlr::RECORD_ID);
        assert_eq!(record.description, laz::LazVlr::DESCRIPTION);
        let read = laz::LazVlr::from_buffer(&record.data).unwrap();
        assert!(read.uses_variable_size_chunks());
        let items: Vec<u16> = read.items().iter().map(|item| item.size()).collect();
        assert_eq!(items, sizes);
        assert!(read.items().iter().all(|item| item.version() == 3));
    }
    assert_eq!(
        laz_vlr(&format_number(0x86)).data,
        [
            3, 0, 0, 0, 2, 2, 0, 0, 0, 0, 0, 0, 0xff, 0xff, 0xff, 0xff, 0xff, 0xff, 0xff, 0xff,
            0xff, 0xff, 0xff, 0xff, 0xff, 0xff, 0xff, 0xff, 0xff, 0xff, 0xff, 0xff, 1, 0, 10, 0,
            30, 0, 3, 0
        ],
    );
    let colored = laz_vlr(&format_number(0x87)).data;
    assert_eq!(&colored[32..], &words(&[2, 10, 30, 3, 11, 6, 3])[..]);
}

#[test]
fn every_format_is_upgraded_kept_or_refused() {
    for number in 0..=255u8 {
        let res = upgrade_for(number);
        match number & 0x3f {
            1 => assert_eq!(res.unwrap(), UpgradePdrf::From1to6),
            3 => assert_eq!(res.unwrap(), UpgradePdrf::From3to7),
            6..=8 => assert_eq!(res.unwrap(), UpgradePdrf::NoUpgrade),
            _ => match (res, las::point::Format::new(number)) {
                (Err(CopcError::InvalidPointFormat(format)), Ok(_)) => {
                    assert_eq!(format, format_number(number))
                }
                (Err(CopcError::InvalidPointFormatNumber(n)), Err(_)) => assert_eq!(n, number),
                other => panic!("{number}: {other:?}"),
            },
        }
    }
}

#[test]
fn an_upgrade_changes_number_length_and_encoding() {
    let fields = FormatFields { format: 1, record_length: 28, global_encoding: 0b1 };
    assert_eq!(
        fields.upgrade(UpgradePdrf::From1to6),
        FormatFields { format: 0xc6, record_length: 30, global_encoding: 0b10001 },
    );
    let fields = FormatFields { format: 0x83, record_length: 40, global_encoding: 0b10000 };
    assert_eq!(
        fields.upgrade(UpgradePdrf::From3to7),
        FormatFields { format: 0xc7, record_length: 42, global_encoding: 0b10000 },
    );
    let fields = FormatFields { format: 0x48, record_length: 38, global_encoding: 0 };
    assert_eq!(
        fields.upgrade(UpgradePdrf::NoUpgrade),
        FormatFields { format: 0xc8, record_length: 38, global_encoding: 16 },
    );
}

#[test]
fn what_is_done_about_a_format_can_be_logged() {
    assert_eq!(UpgradePdrf::From1to6.log_string(), "Upgrading LAS PDRF from 1 to 6");
    assert_eq!(UpgradePdrf::From3to7.log_string(), "Upgrading LAS PDRF from 3 to 7");
    assert_eq!(UpgradePdrf::NoUpgrade.log_string(), "COPC supports the given PDRF");
}

#[test]
fn the_software_field_is_padded_with_zeros() {
    let field = generating_software("0.5.0");
    assert_eq!(field.len(), 32);
    assert_eq!(&field[..14], b"COPC-rs v0.5.0");
    assert!(field[14..].iter().all(|b| *b == 0));
    assert_eq!(&generating_software("10.20.30-rc.1 (2026-07)")[9..], b"10.20.30-rc.1 (2026-07)");
}

#[test]
fn an_entry_takes_32_bytes() {
    let entry = Entry {
        key: VoxelKey { level: 1, x: 2, y: 3, z: -1 },
        offset: 0x0102_0304_0506_0708,
        byte_size: 0x11,
        point_count: -1,
    };
    let mut out = vec![];
    entry.write_to(&mut out);
    assert_eq!(
        out,
        [
            1, 0, 0, 0, 2, 0, 0, 0, 3, 0, 0, 0, 0xff, 0xff, 0xff, 0xff, 8, 7, 6, 5, 4, 3, 2, 1,
            0x11, 0, 0, 0, 0xff, 0xff, 0xff, 0xff
        ],
    );
    let page = HierarchyPage { entries: vec![entry, entry] };
    assert_eq!(page.byte_size(), 64);
    let record = page.to_evlr();
    assert_eq!((record.user_id.as_str(), record.record_id), ("copc", 1000));
    assert_eq!(record.data, [out.clone(), out].concat());
    assert!(HierarchyPage { entries: vec![] }.to_evlr().data.is_empty());
}

#[test]
fn the_description_takes_160_bytes() {
    let info = CopcInfo {
        center: Position { x: 1.0f64.to_bits(), y: 2.0f64.to_bits(), z: 3.0f64.to_bits() },
        halfsize: 4.0f64.to_bits(),
        spacing: 5.0f64.to_bits(),
        root_hier_offset: 6,
        root_hier_size: 7,
        gpstime_minimum: 8.0f64.to_bits(),
        gpstime_maximum: 9.0f64.to_bits(),
    };
    let record = info.to_vlr();
    assert_eq!((record.user_id.as_str(), record.record_id), ("copc", 1));
    let mut expected = vec![];
    for v in [1.0f64, 2.0, 3.0, 4.0, 5.0] {
        expected.extend(v.to_le_bytes());
    }
    expected.extend(6u64.to_le_bytes());
    expected.extend(7u64.to_le_bytes());
    expected.extend(8.0f64.to_le_bytes());
    expected.extend(9.0f64.to_le_bytes());
    expected.extend([0; 88]);
    assert_eq!(record.data, expected);
    assert_eq!(record.data.len(), 160);
    assert_eq!(CopcInfo::default().to_vlr().data, vec![0; 160]);
}
