use film_exif::read_metadata::ExposureInfo;
use film_exif::update_exif_metadata::{
    interpret_exiftool_output, update_exif_metadata, Error, ExifArgs,
};
use film_exif::update_exif_metadata::exiftool_args;

fn record(lens: &str, focal: &str, iso: i32, comp: Option<&str>) -> ExposureInfo {
    ExposureInfo {
        lens_name: lens.to_string(),
        focal_length: focal.to_string(),
        date: "2021:05:01 10:00:00".to_string(),
        iso,
        aperture: "2.8".to_string(),
        shutter_speed: "1/250".to_string(),
        exposure_compensation: comp.map(|c| c.to_string()),
    }
}

#[test]
fn count_mismatch_fails_without_planning_anything() {
    let files = vec![
        "a.jpg".to_string(),
        "b.jpg".to_string(),
        "c.jpg".to_string(),
    ];
    let exposures = vec![record("L", "50", 200, None), record("L", "50", 200, None)];
    let res = update_exif_metadata(files, exposures, "FM2", "NIKON");
    assert!(matches!(res, Err(Error::BadInformation)));
}

#[test]
fn argument_set_without_compensation() {
    let exposure = record("Nikkor 50mm", "50", 200, None);
    let file = "roll/03.jpg".to_string();
    let model = "FM2".to_string();
    let maker = "NIKON".to_string();
    let args = exiftool_args(&ExifArgs {
        file: &file,
        exposure: &exposure,
        model: &model,
        maker: &maker,
    });
    assert_eq!(
        args,
        vec![
            "-AllDates=2021:05:01 10:00:00".to_string(),
            "-fnumber=2.8".to_string(),
            "-aperturevalue=2.8".to_string(),
            "-FocalLength=50mm".to_string(),
            "-Lens=50mm".to_string(),
            "-FocalLengthIn35mmFormat=50mm".to_string(),
            "-ShutterSpeedValue=1/250".to_string(),
            "-ExposureTime=1/250".to_string(),
            "-iso=200".to_string(),
            "-LensModel=Nikkor 50mm".to_string(),
            "-Make=NIKON".to_string(),
            "-Model=FM2".to_string(),
            "roll/03.jpg".to_string(),
        ]
    );
}

#[test]
fn argument_set_with_compensation_formatted_to_two_decimals() {
    let exposure = record("Nikkor 50mm", "50", 200, Some("0.7"));
    let file = "roll/03.jpg".to_string();
    let model = "FM2".to_string();
    let maker = "NIKON".to_string();
    let args = exiftool_args(&ExifArgs {
        file: &file,
        exposure: &exposure,
        model: &model,
        maker: &maker,
    });
    assert_eq!(args.len(), 14);
    assert_eq!(args[12], "-ExposureCompensation=0.70");
    assert_eq!(args[13], "roll/03.jpg");
}

#[test]
fn pairs_are_written_by_position() {
    let files = vec!["a.jpg".to_string(), "b.jpg".to_string()];
    let exposures = vec![
        record("First", "35", 100, None),
        record("Second", "85", 400, None),
    ];
    let run = update_exif_metadata(files, exposures, "FM2", "NIKON").unwrap();
    assert_eq!(run.plan.len(), 2);
    assert!(run.plan[0].contains(&"-LensModel=First".to_string()));
    assert_eq!(run.plan[0].last().unwrap(), "a.jpg");
    assert!(run.plan[1].contains(&"-LensModel=Second".to_string()));
    assert_eq!(run.plan[1].last().unwrap(), "b.jpg");
}

#[test]
fn a_failure_halts_the_remaining_pairs() {
    let files = vec!["a.jpg".to_string(), "b.jpg".to_string()];
    let exposures = vec![
        record("First", "35", 100, None),
        record("Second", "85", 400, None),
    ];
    let mut run = update_exif_metadata(files, exposures, "FM2", "NIKON").unwrap();
    assert!(run.next_invocation().is_some());
    let res = run.record_outcome(false, &Vec::new(), &b"boom".to_vec());
    match res {
        Err(Error::ExiftoolExe { stderr }) => assert_eq!(stderr, "boom"),
        other => panic!("unexpected result: {:?}", other.err()),
    }
    assert!(run.next_invocation().is_none());
}

#[test]
fn successful_outcomes_advance_to_completion() {
    let files = vec!["a.jpg".to_string(), "b.jpg".to_string()];
    let exposures = vec![
        record("First", "35", 100, None),
        record("Second", "85", 400, None),
    ];
    let mut run = update_exif_metadata(files, exposures, "FM2", "NIKON").unwrap();
    let first = run.next_invocation().unwrap().clone();
    assert_eq!(first.last().unwrap(), "a.jpg");
    let out = run.record_outcome(true, &b"written".to_vec(), &Vec::new());
    assert_eq!(out.unwrap(), "written");
    let second = run.next_invocation().unwrap().clone();
    assert_eq!(second.last().unwrap(), "b.jpg");
    let out = run.record_outcome(true, &Vec::new(), &Vec::new());
    assert_eq!(out.unwrap(), "");
    assert!(run.next_invocation().is_none());
}

#[test]
fn undecodable_standard_output_is_an_error() {
    let bad = vec![0xffu8, 0xfe];
    let res = interpret_exiftool_output(true, &bad, &Vec::new());
    assert!(matches!(res, Err(Error::ExiftoolWait { .. })));
}

#[test]
fn nonzero_exit_surfaces_standard_error_lossily() {
    let mut noisy = b"bad ".to_vec();
    noisy.push(0xff);
    let res = interpret_exiftool_output(false, &Vec::new(), &noisy);
    match res {
        Err(Error::ExiftoolExe { stderr }) => assert!(stderr.starts_with("bad ")),
        other => panic!("unexpected result: {:?}", other.err()),
    }
}

#[test]
fn reader_output_feeds_the_writer() {
    let data = b"lens_name,focal_length,date,iso,aperture,shutter_speed\n\
L,50,2021:05:01,200,2.8,1/250\nL,35,2021:05:02,400,4,1/60\n"
        .to_vec();
    let exposures = film_exif::read_metadata::read_metadata(&data).unwrap();
    let files = vec!["a.jpg".to_string(), "b.jpg".to_string()];
    let run = update_exif_metadata(files, exposures, "FM2", "NIKON").unwrap();
    assert_eq!(run.plan.len(), 2);
    assert!(run.plan[1].contains(&"-iso=400".to_string()));
}
