use film_exif::get_photos::{
    extension_str, get_photo_info, is_photo, photos_from_entries, Error, WalkEntry,
};

fn file_entry(path: &str) -> WalkEntry {
    WalkEntry {
        path: Some(path.to_string()),
        is_dir: false,
        is_file: true,
        meta_err: None,
    }
}

fn dir_entry(path: &str) -> WalkEntry {
    WalkEntry {
        path: Some(path.to_string()),
        is_dir: true,
        is_file: false,
        meta_err: None,
    }
}

#[test]
fn directory_listing_is_sorted_and_filtered() {
    let entries = vec![
        dir_entry("shoot"),
        file_entry("shoot/b.jpg"),
        file_entry("shoot/notes.txt"),
        file_entry("shoot/a.png"),
        dir_entry("shoot/sub"),
        file_entry("shoot/B.TIFF"),
        file_entry("shoot/sub/c.jpeg"),
    ];
    let got = photos_from_entries(&entries).unwrap();
    assert_eq!(
        got,
        vec![
            "shoot/B.TIFF".to_string(),
            "shoot/a.png".to_string(),
            "shoot/b.jpg".to_string(),
            "shoot/sub/c.jpeg".to_string(),
        ]
    );
}

#[test]
fn directory_counts_only_matching_files() {
    let entries = vec![
        dir_entry("d"),
        file_entry("d/one.jpg"),
        file_entry("d/two.png"),
        file_entry("d/readme.md"),
        file_entry("d/noext"),
        file_entry("d/three.tiff"),
    ];
    let got = photos_from_entries(&entries).unwrap();
    assert_eq!(got.len(), 3);
}

#[test]
fn directory_skips_unreadable_and_textless_entries() {
    let entries = vec![
        dir_entry("d"),
        WalkEntry {
            path: Some("d/broken.jpg".to_string()),
            is_dir: false,
            is_file: true,
            meta_err: Some("permission denied".to_string()),
        },
        WalkEntry {
            path: None,
            is_dir: false,
            is_file: true,
            meta_err: None,
        },
        file_entry("d/ok.jpg"),
    ];
    let got = photos_from_entries(&entries).unwrap();
    assert_eq!(got, vec!["d/ok.jpg".to_string()]);
}

#[test]
fn empty_walk_yields_no_photos() {
    let entries: Vec<WalkEntry> = vec![];
    let got = photos_from_entries(&entries).unwrap();
    assert!(got.is_empty());
}

#[test]
fn single_file_unsupported_extension_fails() {
    let entries = vec![file_entry("frame.txt")];
    let res = photos_from_entries(&entries);
    assert!(matches!(res, Err(Error::InvalidExtension)));
}

#[test]
fn single_file_supported_extension_succeeds() {
    let entries = vec![file_entry("frame.jpg")];
    let got = photos_from_entries(&entries).unwrap();
    assert_eq!(got, vec!["frame.jpg".to_string()]);
}

#[test]
fn single_file_without_extension_fails() {
    let entries = vec![file_entry("frame")];
    match photos_from_entries(&entries) {
        Err(Error::NoExtension { entry }) => assert_eq!(entry, "frame"),
        other => panic!("unexpected result: {:?}", other.err()),
    }
}

#[test]
fn single_file_without_text_path_fails() {
    let e = WalkEntry {
        path: None,
        is_dir: false,
        is_file: true,
        meta_err: None,
    };
    assert!(matches!(get_photo_info(&e), Err(Error::InvalidFile)));
}

#[test]
fn single_file_with_metadata_error_fails() {
    let e = WalkEntry {
        path: Some("frame.jpg".to_string()),
        is_dir: false,
        is_file: true,
        meta_err: Some("gone".to_string()),
    };
    match get_photo_info(&e) {
        Err(Error::Metadata { message }) => assert_eq!(message, "gone"),
        other => panic!("unexpected result: {:?}", other.err()),
    }
}

#[test]
fn extension_is_case_insensitive() {
    assert!(is_photo("TIFF"));
    assert!(is_photo("JpG"));
    assert!(is_photo("jpeg"));
    assert!(is_photo("png"));
    assert!(!is_photo("gif"));
    assert!(!is_photo("tif"));
    assert!(!is_photo(""));
}

#[test]
fn extension_extraction_follows_the_file_name() {
    assert_eq!(extension_str("a/b.jpeg"), Some("jpeg"));
    assert_eq!(extension_str("a.b/c"), None);
    assert_eq!(extension_str("archive.tar.png"), Some("png"));
    assert_eq!(extension_str("a/.hidden"), None);
    assert_eq!(extension_str("noext"), None);
    assert_eq!(extension_str("trailing."), Some(""));
}
