use film_exif::text::{sort_paths, str_lex_le};

#[test]
fn paths_sort_ascending_lexicographically() {
    let input = vec![
        "b/2.jpg".to_string(),
        "a/10.jpg".to_string(),
        "a/2.jpg".to_string(),
        "a".to_string(),
        "a/2.jpg".to_string(),
    ];
    let sorted = sort_paths(input);
    assert_eq!(
        sorted,
        vec![
            "a".to_string(),
            "a/10.jpg".to_string(),
            "a/2.jpg".to_string(),
            "a/2.jpg".to_string(),
            "b/2.jpg".to_string(),
        ]
    );
}

#[test]
fn ordering_is_by_code_point_and_prefixes_come_first() {
    assert!(str_lex_le("a", "ab"));
    assert!(!str_lex_le("ab", "a"));
    assert!(str_lex_le("", "a"));
    assert!(str_lex_le("A.jpg", "a.jpg"));
    assert!(str_lex_le("a", "a"));
    assert!(str_lex_le("roll/09.png", "roll/10.png"));
    assert!(!str_lex_le("b", "a"));
}
