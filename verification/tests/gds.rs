use opensilicon::cell::Cell;
use opensilicon::database::LayoutDatabase;
use opensilicon::gds::{GdsError, GdsReader, GdsRecord, GdsWriter};
use opensilicon::geometry::{GeomPrimitive, Path, Point, Polygon, Rect};
use opensilicon::cell::{CellInstance, Transform};
use opensilicon::real8::{real8_from_f64_bits, real8_to_f64_bits, Real8};

fn encode_f64(v: f64) -> [u8; 8] {
    real8_from_f64_bits(v.to_bits()).to_bytes()
}

fn decode_f64(bytes: &[u8]) -> f64 {
    f64::from_bits(real8_to_f64_bits(Real8::from_bytes(bytes)))
}

#[test]
fn test_gds_real8_roundtrip() {
    let values = [0.0, 1.0, -1.0, 0.001, 1e-9, 3.14159, 1000.0];
    for &v in &values {
        let bytes = encode_f64(v);
        let result = decode_f64(&bytes);
        assert!(
            (result - v).abs() < v.abs() * 1e-10 + 1e-15,
            "Roundtrip failed for {}: got {}",
            v,
            result
        );
    }
}

#[test]
fn test_gds_real8_roundtrip_is_bit_exact() {
    // Values in the band the format represents exactly survive bit for bit.
    let values = [1.0, -1.0, 0.001, 1e-9, 3.14159, 1000.0, 12345.6789, -0.25];
    for &v in &values {
        let result = decode_f64(&encode_f64(v));
        assert_eq!(result.to_bits(), v.to_bits(), "bits changed for {}", v);
    }
}

#[test]
fn test_gds_real8_known_encoding() {
    // One is mantissa 2^52 with exponent 65: the classic 0x41 0x10 00.. pattern.
    let bytes = encode_f64(1.0);
    assert_eq!(bytes, [0x41, 0x10, 0, 0, 0, 0, 0, 0]);
    // Zero is the all-zero pattern.
    assert_eq!(encode_f64(0.0), [0u8; 8]);
}

#[test]
fn test_write_and_read_roundtrip() {
    let mut db = LayoutDatabase::new("test_lib");
    let mut cell = Cell::new("test_cell");
    cell.add_geometry(GeomPrimitive::Rect(Rect::new(0, 0, 0, 100, 50)));
    cell.add_geometry(GeomPrimitive::Rect(Rect::new(1, 50, 25, 200, 75)));
    db.add_cell(cell);

    let mut writer = GdsWriter::new();
    writer.write(&db).unwrap();

    let mut reader = GdsReader::new(writer.bytes().clone());
    let read_db = reader.read().unwrap();

    assert_eq!(read_db.cell_count(), 1);
    let read_cell = read_db.find_cell_by_name("test_cell").unwrap();
    assert_eq!(read_cell.geometry_count(), 2);
}

#[test]
fn test_roundtrip_preserves_names_counts_layers() {
    let mut db = LayoutDatabase::new("chip");
    let mut a = Cell::new("alu");
    a.add_geometry(GeomPrimitive::Rect(Rect::new(3, -5, -5, 5, 5)));
    a.add_geometry(GeomPrimitive::Polygon(Polygon::new(
        7,
        vec![Point::new(0, 10), Point::new(10, 20), Point::new(20, 10), Point::new(10, 0)],
    )));
    a.add_geometry(GeomPrimitive::Path(Path::new(
        9,
        vec![Point::new(0, 0), Point::new(100, 0), Point::new(100, 100)],
        4,
    )));
    db.add_cell(a);
    let mut b = Cell::new("rom");
    b.add_geometry(GeomPrimitive::Rect(Rect::new(12, 0, 0, 1000, 2000)));
    db.add_cell(b);

    let mut writer = GdsWriter::new();
    writer.write(&db).unwrap();
    let mut reader = GdsReader::new(writer.bytes().clone());
    let read_db = reader.read().unwrap();

    assert_eq!(read_db.name().as_str(), "chip");
    assert_eq!(read_db.cell_count(), 2);
    let cells = read_db.all_cells();
    assert_eq!(cells[0].name.as_str(), "alu");
    assert_eq!(cells[1].name.as_str(), "rom");
    assert_eq!(cells[0].geometry_count(), 3);
    assert_eq!(cells[1].geometry_count(), 1);
    let layers: Vec<u32> = cells[0].geometries.iter().map(|g| g.layer_id()).collect();
    assert_eq!(layers, vec![3, 7, 9]);
    assert_eq!(cells[1].geometries[0].layer_id(), 12);
}

#[test]
fn test_axis_aligned_boundary_imported_as_rect() {
    // A four-point axis-aligned boundary written as a polygon comes back as
    // a rectangle.
    let mut db = LayoutDatabase::new("lib");
    let mut c = Cell::new("c");
    c.add_geometry(GeomPrimitive::Polygon(Polygon::new(
        2,
        vec![Point::new(0, 0), Point::new(10, 0), Point::new(10, 10), Point::new(0, 10)],
    )));
    db.add_cell(c);
    let mut writer = GdsWriter::new();
    writer.write(&db).unwrap();
    let mut reader = GdsReader::new(writer.bytes().clone());
    let read_db = reader.read().unwrap();
    let cell = read_db.find_cell_by_name("c").unwrap();
    match &cell.geometries[0] {
        GeomPrimitive::Rect(r) => {
            assert_eq!(r.layer_id, 2);
            assert_eq!(r.lower_left, Point::new(0, 0));
            assert_eq!(r.upper_right, Point::new(10, 10));
        }
        other => panic!("expected a rectangle, got {:?}", other),
    }
}

#[test]
fn test_diamond_boundary_imported_as_polygon() {
    // A diamond has four distinct x and four distinct y values: a polygon.
    let mut db = LayoutDatabase::new("lib");
    let mut c = Cell::new("c");
    c.add_geometry(GeomPrimitive::Polygon(Polygon::new(
        2,
        vec![Point::new(0, 10), Point::new(10, 20), Point::new(20, 10), Point::new(10, 0)],
    )));
    db.add_cell(c);
    let mut writer = GdsWriter::new();
    writer.write(&db).unwrap();
    let mut reader = GdsReader::new(writer.bytes().clone());
    let read_db = reader.read().unwrap();
    let cell = read_db.find_cell_by_name("c").unwrap();
    match &cell.geometries[0] {
        GeomPrimitive::Polygon(p) => {
            assert_eq!(p.layer_id, 2);
            assert_eq!(p.vertex_count(), 4);
        }
        other => panic!("expected a polygon, got {:?}", other),
    }
}

#[test]
fn test_via_written_as_cut_layer_rect() {
    // A via is written as a rectangle on its cut layer: the mapping is lossy
    // one way, and a written-then-read via is a rectangle.
    let mut db = LayoutDatabase::new("lib");
    let mut c = Cell::new("c");
    c.add_geometry(GeomPrimitive::Via(opensilicon::geometry::Via::new(
        1,
        3,
        2,
        Point::new(100, 100),
        10,
        10,
    )));
    db.add_cell(c);
    let mut writer = GdsWriter::new();
    writer.write(&db).unwrap();
    let mut reader = GdsReader::new(writer.bytes().clone());
    let read_db = reader.read().unwrap();
    let cell = read_db.find_cell_by_name("c").unwrap();
    match &cell.geometries[0] {
        GeomPrimitive::Rect(r) => {
            assert_eq!(r.layer_id, 2);
            assert_eq!(r.lower_left, Point::new(95, 95));
            assert_eq!(r.upper_right, Point::new(105, 105));
        }
        other => panic!("expected a rectangle, got {:?}", other),
    }
}

#[test]
fn test_empty_stream_is_invalid() {
    let mut reader = GdsReader::new(Vec::new());
    match reader.read() {
        Err(GdsError::InvalidRecord { offset, .. }) => assert_eq!(offset, 0),
        other => panic!("expected an invalid-record failure, got {:?}", other),
    }
}

#[test]
fn test_short_record_length_is_invalid() {
    // A record claiming a total length below the four header bytes.
    let mut reader = GdsReader::new(vec![0x00, 0x02]);
    match reader.read() {
        Err(GdsError::InvalidRecord { offset, .. }) => assert_eq!(offset, 2),
        other => panic!("expected an invalid-record failure, got {:?}", other),
    }
}

#[test]
fn test_truncated_record_is_io_error() {
    // A header record claiming eight bytes with only six present.
    let mut reader = GdsReader::new(vec![0x00, 0x08, 0x00, 0x02, 0x00, 0x00]);
    match reader.read() {
        Err(GdsError::Io(_)) => {}
        other => panic!("expected a stream failure, got {:?}", other),
    }
}

#[test]
fn test_wrong_leading_record_is_unexpected() {
    // A stream starting with BGNLIB instead of HEADER.
    let mut reader = GdsReader::new(vec![0x00, 0x04, 0x01, 0x02]);
    match reader.read() {
        Err(GdsError::UnexpectedRecord { record_type, expected }) => {
            assert_eq!(record_type, 0x0102);
            assert_eq!(expected, 0x0002);
        }
        other => panic!("expected an unexpected-record failure, got {:?}", other),
    }
}

#[test]
fn test_record_accessors() {
    let rec = GdsRecord { record_type: 0x0D02, data: vec![0x00, 0x07, 0xFF, 0xFE] };
    assert_eq!(rec.kind(), 0x0D);
    assert_eq!(rec.data_type_tag(), 0x02);
    assert_eq!(rec.as_i16_vec(), vec![7, -2]);
    let rec32 = GdsRecord { record_type: 0x1003, data: vec![0xFF, 0xFF, 0xFF, 0xFE] };
    assert_eq!(rec32.as_i32_vec(), vec![-2]);
    let recs = GdsRecord { record_type: 0x0606, data: vec![b'a', b'b', 0, 0] };
    assert_eq!(recs.as_string().as_str(), "ab");
}

#[test]
fn test_sref_roundtrip_keeps_name_and_offset() {
    let mut db = LayoutDatabase::new("lib");
    let mut parent = Cell::new("parent");
    let mut tf = Transform::translate(500, -700);
    tf.mirror_x = true;
    parent.add_instance(CellInstance::new(0, "child", tf));
    db.add_cell(parent);
    let mut child = Cell::new("child");
    child.add_geometry(GeomPrimitive::Rect(Rect::new(0, 0, 0, 1, 1)));
    db.add_cell(child);

    let mut writer = GdsWriter::new();
    writer.write(&db).unwrap();
    let mut reader = GdsReader::new(writer.bytes().clone());
    let mut read_db = reader.read().unwrap();
    {
        let p = read_db.find_cell_by_name("parent").unwrap();
        assert_eq!(p.instance_count(), 1);
        let inst = &p.instances[0];
        assert_eq!(inst.instance_name.as_str(), "child");
        assert_eq!(inst.transform.offset, Point::new(500, -700));
        assert!(inst.transform.mirror_x);
        // The child id is a placeholder until resolved by name.
        assert_eq!(inst.cell_id, 0);
    }
    // The post-load pass points the placement at the named cell.
    read_db.resolve_instances().unwrap();
    let child_id = read_db.find_cell_by_name("child").unwrap().id;
    assert_ne!(child_id, 0);
    let p = read_db.find_cell_by_name("parent").unwrap();
    assert_eq!(p.instances[0].cell_id, child_id);
}

#[test]
fn test_resolve_instances_reports_undefined_cell() {
    let mut db = LayoutDatabase::new("lib");
    let mut parent = Cell::new("parent");
    parent.add_instance(CellInstance::new(0, "nowhere", Transform::default()));
    db.add_cell(parent);
    match db.resolve_instances() {
        Err(GdsError::UndefinedCell(name)) => assert_eq!(name.as_str(), "nowhere"),
        other => panic!("expected an undefined-cell failure, got {:?}", other),
    }
    // A failed resolution changes nothing.
    let p = db.find_cell_by_name("parent").unwrap();
    assert_eq!(p.instances[0].cell_id, 0);
}

#[test]
fn test_resolve_instances_picks_first_matching_name() {
    let mut db = LayoutDatabase::new("lib");
    let mut parent = Cell::new("parent");
    parent.add_instance(CellInstance::new(0, "leaf", Transform::default()));
    db.add_cell(parent);
    let first = Cell::new("leaf");
    let first_id = first.id;
    db.add_cell(first);
    let second = Cell::new("leaf");
    db.add_cell(second);
    db.resolve_instances().unwrap();
    let p = db.find_cell_by_name("parent").unwrap();
    assert_eq!(p.instances[0].cell_id, first_id);
}

#[test]
fn test_units_record_roundtrip() {
    let db = LayoutDatabase::new("lib");
    let mut writer = GdsWriter::new();
    writer.write(&db).unwrap();
    let mut reader = GdsReader::new(writer.bytes().clone());
    let _ = reader.read().unwrap();
    let (user, meters) = reader.units().unwrap();
    assert_eq!(f64::from_bits(real8_to_f64_bits(user)), 1e-6);
    assert_eq!(f64::from_bits(real8_to_f64_bits(meters)), 1e-9);
}
