use gtfs_bbox::BboxError;
use gtfs_bbox::decode::check_float_text;
use gtfs_bbox::decode::decode_record;
use gtfs_bbox::decode::split_fields;

#[test]
fn split_keeps_every_field_in_order() {
    let fields = split_fields("shape_1,3,40.5,-73.9,0.0");
    assert_eq!(fields, vec!["shape_1", "3", "40.5", "-73.9", "0.0"]);
}

#[test]
fn split_of_empty_text_is_one_empty_field() {
    assert_eq!(split_fields(""), vec![""]);
}

#[test]
fn split_keeps_empty_fields() {
    assert_eq!(split_fields("a,,b"), vec!["a", "", "b"]);
    assert_eq!(split_fields(","), vec!["", ""]);
    assert_eq!(split_fields("x,y,"), vec!["x", "y", ""]);
}

#[test]
fn float_text_check_matches_the_float_parser() {
    let cases = [
        "1", "1.5", ".5", "5.", "1e10", "1.5E-3", "+2.25e+4", "-0.0", "+inf", "-Infinity", "inf",
        "nan", "NaN", "007", "1.", "3.e2", "", ".", "+", "-", "1.2.3", "1e", "e5", "abc", "--1",
        "1 ", " 1", "0x10", "1_000", "4f", "in", "infinit", "nane",
    ];
    for s in cases.iter() {
        assert_eq!(
            check_float_text(s),
            s.parse::<f64>().is_ok(),
            "disagreement on {:?}",
            s
        );
    }
}

#[test]
fn decode_extracts_latitude_then_longitude() {
    let (lat, lon) = decode_record("shape_1,3,40.5,-73.9,0.0").unwrap();
    assert_eq!(lat, "40.5");
    assert_eq!(lon, "-73.9");
}

#[test]
fn decode_needs_at_least_three_fields_for_latitude() {
    match decode_record("a,b") {
        Err(BboxError::MissingLatitude) => {}
        other => panic!("expected a missing latitude, got {:?}", other),
    }
}

#[test]
fn decode_needs_a_fourth_field_for_longitude() {
    match decode_record("a,b,40.5") {
        Err(BboxError::MissingLongitude) => {}
        other => panic!("expected a missing longitude, got {:?}", other),
    }
}

#[test]
fn decode_names_a_non_numeric_latitude() {
    match decode_record("a,b,not-a-number,-75.0") {
        Err(BboxError::InvalidNumber { text }) => assert_eq!(text, "not-a-number"),
        other => panic!("expected an invalid number, got {:?}", other),
    }
}

#[test]
fn decode_names_a_non_numeric_longitude() {
    match decode_record("a,b,40.5,east") {
        Err(BboxError::InvalidNumber { text }) => assert_eq!(text, "east"),
        other => panic!("expected an invalid number, got {:?}", other),
    }
}

#[test]
fn decode_reports_a_bad_latitude_before_a_missing_longitude() {
    match decode_record("a,b,bad") {
        Err(BboxError::InvalidNumber { text }) => assert_eq!(text, "bad"),
        other => panic!("expected an invalid number, got {:?}", other),
    }
}

#[test]
fn decode_ignores_extra_fields() {
    let (lat, lon) = decode_record(",,1.5,2.5,junk,more junk").unwrap();
    assert_eq!(lat, "1.5");
    assert_eq!(lon, "2.5");
}
