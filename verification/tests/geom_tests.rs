use gtfs_bbox::geom::Coord;
use gtfs_bbox::geom::Point;
use gtfs_bbox::geom::Rect;

fn key_of(v: f64) -> i64 {
    let b = v.to_bits() as i64;
    b ^ (((b >> 63) as u64) >> 1) as i64
}

fn coord(v: f64) -> Coord {
    Coord::new(key_of(v), v.to_string())
}

fn point(lon: f64, lat: f64) -> Point {
    Point::new(coord(lon), coord(lat))
}

#[test]
fn order_key_preserves_float_order() {
    let vals = [
        f64::NEG_INFINITY,
        -1.0e300,
        -76.0,
        -75.5,
        -0.25,
        0.0,
        0.125,
        40.0,
        41.0,
        1.0e300,
        f64::INFINITY,
    ];
    for w in vals.windows(2) {
        assert!(key_of(w[0]) < key_of(w[1]));
    }
}

#[test]
fn seed_orders_each_axis_independently() {
    let r = Rect::new(point(-75.0, 41.0), point(-76.0, 40.0));
    assert_eq!(r.min().x().key, key_of(-76.0));
    assert_eq!(r.min().y().key, key_of(40.0));
    assert_eq!(r.max().x().key, key_of(-75.0));
    assert_eq!(r.max().y().key, key_of(41.0));
    assert_eq!(r.min().x().text, "-76");
    assert_eq!(r.max().y().text, "41");
}

#[test]
fn seed_of_equal_points_is_degenerate() {
    let r = Rect::new(point(7.5, -3.0), point(7.5, -3.0));
    assert_eq!(r.min().x().key, r.max().x().key);
    assert_eq!(r.min().y().key, r.max().y().key);
    assert_eq!(r.osm_bbox_fmt(), "7.5,-3,7.5,-3");
}

#[test]
fn expand_raises_max_and_lowers_min() {
    let mut r = Rect::new(point(-75.0, 40.0), point(-76.0, 41.0));
    r.expand(point(-74.0, 39.0));
    assert_eq!(r.min().x().text, "-76");
    assert_eq!(r.min().y().text, "39");
    assert_eq!(r.max().x().text, "-74");
    assert_eq!(r.max().y().text, "41");
}

#[test]
fn expand_with_interior_point_changes_nothing() {
    let mut r = Rect::new(point(-77.0, 40.0), point(-74.0, 42.0));
    let before = r.osm_bbox_fmt();
    r.expand(point(-75.5, 41.0));
    assert_eq!(r.osm_bbox_fmt(), before);
}

#[test]
fn expand_is_monotone_over_a_stream() {
    let stream = [
        (3.0, 1.0),
        (-8.0, 11.0),
        (2.5, -6.0),
        (100.0, 0.5),
        (-3.25, 2.0),
    ];
    let mut r = Rect::new(point(1.0, 1.0), point(2.0, 2.0));
    let mut folded: Vec<(f64, f64)> = vec![(1.0, 1.0), (2.0, 2.0)];
    for &(lon, lat) in stream.iter() {
        let old_min_x = r.min().x().key;
        let old_min_y = r.min().y().key;
        let old_max_x = r.max().x().key;
        let old_max_y = r.max().y().key;
        r.expand(point(lon, lat));
        folded.push((lon, lat));
        assert!(r.min().x().key <= old_min_x);
        assert!(r.min().y().key <= old_min_y);
        assert!(r.max().x().key >= old_max_x);
        assert!(r.max().y().key >= old_max_y);
        for &(flon, flat) in folded.iter() {
            assert!(r.min().x().key <= key_of(flon) && key_of(flon) <= r.max().x().key);
            assert!(r.min().y().key <= key_of(flat) && key_of(flat) <= r.max().y().key);
        }
    }
}

#[test]
fn format_follows_left_bottom_right_top_order() {
    let r = Rect::new(point(-76.0, 40.0), point(-75.0, 41.0));
    assert_eq!(r.osm_bbox_fmt(), "-76,40,-75,41");
}

#[test]
fn format_keeps_full_precision_text() {
    let r = Rect::new(point(-76.123456789, 40.000000001), point(-75.0, 41.5));
    assert_eq!(r.osm_bbox_fmt(), "-76.123456789,40.000000001,-75,41.5");
}

#[test]
fn format_round_trips_through_parsing() {
    let r = Rect::new(point(-76.123456789, 40.25), point(-75.000000000001, 41.0));
    let out = r.osm_bbox_fmt();
    let parts: Vec<f64> = out.split(',').map(|p| p.parse::<f64>().unwrap()).collect();
    assert_eq!(parts, vec![-76.123456789, 40.25, -75.000000000001, 41.0]);
    // and through the library's own splitter
    let fields = gtfs_bbox::decode::split_fields(&out);
    assert_eq!(fields.len(), 4);
    assert_eq!(fields[0].parse::<f64>().unwrap(), -76.123456789);
    assert_eq!(fields[3].parse::<f64>().unwrap(), 41.0);
}
