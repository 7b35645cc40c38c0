use film_exif::read_metadata::{read_metadata, BuildExposureInfo, Error, ExposureInfo};

const HEADER: &str = "lens_name,focal_length,date,iso,aperture,shutter_speed";

fn table(rows: &[&str]) -> Vec<u8> {
    let mut text = String::new();
    text.push_str(HEADER);
    for row in rows {
        text.push('\n');
        text.push_str(row);
    }
    text.into_bytes()
}

#[test]
fn valid_rows_are_read_in_order() {
    let data = table(&[
        "Nikkor 50mm,50,2021:05:01 10:00:00,200,2.8,1/250",
        "Nikkor 35mm,35,2021:05:01 10:05:00,400,4,2\"",
    ]);
    let records = read_metadata(&data).unwrap();
    assert_eq!(records.len(), 2);
    assert_eq!(records[0].lens_name, "Nikkor 50mm");
    assert_eq!(records[0].focal_length, "50");
    assert_eq!(records[0].date, "2021:05:01 10:00:00");
    assert_eq!(records[0].iso, 200);
    assert_eq!(records[0].aperture, "2.8");
    assert_eq!(records[0].shutter_speed, "1/250");
    assert!(records[0].exposure_compensation.is_none());
    assert_eq!(records[1].shutter_speed, "2\"");
    assert_eq!(records[1].iso, 400);
}

#[test]
fn bad_shutter_speed_fails_the_whole_read() {
    let data = table(&[
        "Lens,50,2021:05:01,200,2.8,1/250",
        "Lens,50,2021:05:01,200,2.8,fast",
        "Lens,50,2021:05:01,200,2.8,1/500",
    ]);
    match read_metadata(&data) {
        Err(Error::InvalidShutterSpeed { text }) => assert_eq!(text, "fast"),
        other => panic!("unexpected result: {:?}", other.err()),
    }
}

#[test]
fn missing_required_column_fails() {
    let data = b"lens_name,focal_length,date,iso,aperture\nLens,50,2021,200,2.8\n".to_vec();
    assert!(matches!(
        read_metadata(&data),
        Err(Error::FailedToParse { .. })
    ));
}

#[test]
fn unparsable_iso_fails() {
    let data = table(&["Lens,50,2021:05:01,abc,2.8,1/250"]);
    assert!(matches!(
        read_metadata(&data),
        Err(Error::FailedToParse { .. })
    ));
}

#[test]
fn unparsable_focal_length_fails() {
    let data = table(&["Lens,wide,2021:05:01,200,2.8,1/250"]);
    assert!(matches!(
        read_metadata(&data),
        Err(Error::FailedToParse { .. })
    ));
}

#[test]
fn uneven_row_fails_as_a_row_parse_error() {
    let data = table(&["Lens,50,2021:05:01,200,2.8"]);
    assert!(matches!(
        read_metadata(&data),
        Err(Error::FailedToParse { .. })
    ));
}

#[test]
fn compensation_column_is_optional_and_may_be_empty() {
    let data = b"lens_name,focal_length,date,iso,aperture,shutter_speed,exposure_compensation\n\
Lens,50,2021:05:01,200,2.8,1/250,0.7\n\
Lens,50,2021:05:01,200,2.8,1/250,\n"
        .to_vec();
    let records = read_metadata(&data).unwrap();
    assert_eq!(
        records[0].exposure_compensation.as_deref(),
        Some("0.7")
    );
    assert!(records[1].exposure_compensation.is_none());
}

#[test]
fn columns_are_found_by_header_name_not_position() {
    let data = b"shutter_speed,iso,aperture,date,focal_length,lens_name\n1/60,100,8,2020:01:01,28,Wide\n"
        .to_vec();
    let records = read_metadata(&data).unwrap();
    assert_eq!(records[0].shutter_speed, "1/60");
    assert_eq!(records[0].iso, 100);
    assert_eq!(records[0].lens_name, "Wide");
    assert_eq!(records[0].focal_length, "28");
}

#[test]
fn build_validates_the_shutter_pattern() {
    let args = BuildExposureInfo {
        lens_name: "Lens".to_string(),
        focal_length: "50".to_string(),
        date: "2021".to_string(),
        iso: "200".to_string(),
        aperture: "2.8".to_string(),
        shutter_speed: "slow".to_string(),
        exposure_compensation: None,
    };
    match ExposureInfo::build(args) {
        Err(Error::InvalidShutterSpeed { text }) => assert_eq!(text, "slow"),
        other => panic!("unexpected result: {:?}", other.err()),
    }
}

#[test]
fn shutter_pattern_must_match_the_whole_text() {
    assert!(ExposureInfo::is_shutter_speed_valid("1/250"));
    assert!(ExposureInfo::is_shutter_speed_valid("1/8"));
    assert!(ExposureInfo::is_shutter_speed_valid("2\""));
    assert!(ExposureInfo::is_shutter_speed_valid("30\""));
    assert!(!ExposureInfo::is_shutter_speed_valid("x1/30y"));
    assert!(!ExposureInfo::is_shutter_speed_valid("x1/2"));
    assert!(!ExposureInfo::is_shutter_speed_valid("21/4"));
    assert!(!ExposureInfo::is_shutter_speed_valid("1/2x"));
    assert!(!ExposureInfo::is_shutter_speed_valid("about 4\" long"));
    assert!(!ExposureInfo::is_shutter_speed_valid("fast"));
    assert!(!ExposureInfo::is_shutter_speed_valid("1/"));
    assert!(!ExposureInfo::is_shutter_speed_valid("250"));
    assert!(!ExposureInfo::is_shutter_speed_valid("\"2"));
    assert!(!ExposureInfo::is_shutter_speed_valid("2\"\""));
    assert!(!ExposureInfo::is_shutter_speed_valid(""));
}
