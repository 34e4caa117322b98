use gtfs_bbox::BboxError;
use gtfs_bbox::accum::Accumulator;
use gtfs_bbox::accum::compute_bbox;
use gtfs_bbox::decode::decode_record;
use gtfs_bbox::geom::Coord;
use gtfs_bbox::geom::Point;

fn key_of(v: f64) -> i64 {
    let b = v.to_bits() as i64;
    b ^ (((b >> 63) as u64) >> 1) as i64
}

fn coord(v: f64) -> Coord {
    Coord::new(key_of(v), v.to_string())
}

fn point(lon: f64, lat: f64) -> Point {
    Point::new(coord(lon), coord(lat))
}

/// What the surrounding program does with one raw record: decode the two
/// texts, then parse and re-encode them as keyed coordinates.
fn point_from_record(line: &str) -> Point {
    let (lat, lon) = decode_record(line).unwrap();
    let lat: f64 = lat.parse().unwrap();
    let lon: f64 = lon.parse().unwrap();
    point(lon, lat)
}

#[test]
fn two_records_seed_the_box() {
    let records = ["a,0,40.0,-75.0", "a,1,41.0,-76.0"];
    let points: Vec<Point> = records.iter().map(|r| point_from_record(r)).collect();
    let bbox = compute_bbox(points).unwrap();
    assert_eq!(bbox.min().x().text, "-76");
    assert_eq!(bbox.min().y().text, "40");
    assert_eq!(bbox.max().x().text, "-75");
    assert_eq!(bbox.max().y().text, "41");
    assert_eq!(bbox.osm_bbox_fmt(), "-76,40,-75,41");
}

#[test]
fn three_records_expand_the_box() {
    let records = ["s,0,40,-75", "s,1,42,-77", "s,2,41,-74"];
    let points: Vec<Point> = records.iter().map(|r| point_from_record(r)).collect();
    let bbox = compute_bbox(points).unwrap();
    assert_eq!(bbox.min().x().text, "-77");
    assert_eq!(bbox.min().y().text, "40");
    assert_eq!(bbox.max().x().text, "-74");
    assert_eq!(bbox.max().y().text, "42");
}

#[test]
fn folding_order_does_not_change_the_box() {
    let pts = [
        (3.0, 1.0),
        (-8.0, 11.0),
        (2.5, -6.0),
        (100.0, 0.5),
        (-3.25, 2.0),
        (3.0, 1.0),
    ];
    let forward: Vec<Point> = pts.iter().map(|&(lon, lat)| point(lon, lat)).collect();
    let backward: Vec<Point> = pts.iter().rev().map(|&(lon, lat)| point(lon, lat)).collect();
    let rotated: Vec<Point> = pts
        .iter()
        .cycle()
        .skip(3)
        .take(pts.len())
        .map(|&(lon, lat)| point(lon, lat))
        .collect();
    let a = compute_bbox(forward).unwrap().osm_bbox_fmt();
    let b = compute_bbox(backward).unwrap().osm_bbox_fmt();
    let c = compute_bbox(rotated).unwrap().osm_bbox_fmt();
    assert_eq!(a, b);
    assert_eq!(a, c);
}

#[test]
fn no_records_is_insufficient_data() {
    match compute_bbox(Vec::new()) {
        Err(BboxError::InsufficientData) => {}
        other => panic!("expected insufficient data, got {:?}", other),
    }
}

#[test]
fn one_record_is_insufficient_data() {
    match compute_bbox(vec![point(-75.0, 40.0)]) {
        Err(BboxError::InsufficientData) => {}
        other => panic!("expected insufficient data, got {:?}", other),
    }
}

#[test]
fn accumulator_counts_every_push() {
    let mut acc = Accumulator::new();
    assert_eq!(acc.count(), 0);
    acc.push(point(1.0, 2.0));
    assert_eq!(acc.count(), 1);
    acc.push(point(3.0, 4.0));
    acc.push(point(5.0, 6.0));
    assert_eq!(acc.count(), 3);
    let bbox = acc.finish().unwrap();
    assert_eq!(bbox.osm_bbox_fmt(), "1,2,5,6");
}

#[test]
fn accumulator_with_one_point_refuses_to_finish() {
    let mut acc = Accumulator::new();
    acc.push(point(1.0, 2.0));
    match acc.finish() {
        Err(BboxError::InsufficientData) => {}
        other => panic!("expected insufficient data, got {:?}", other),
    }
}
