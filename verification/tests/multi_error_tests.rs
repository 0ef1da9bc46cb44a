use crossword_puz::MultiError;

#[test]
fn new_report_is_empty() {
    let report = MultiError::new();
    assert!(report.is_empty());
    assert_eq!(report.len(), 0);
    assert_eq!(report.get("image"), None);
}

#[test]
fn push_records_a_message_per_field() {
    let mut report = MultiError::new();
    report.push("image", String::from("could not load image"));
    report.push("across_clues", String::from("no clues provided"));
    assert!(!report.is_empty());
    assert_eq!(report.len(), 2);
    assert_eq!(report.get("image"), Some(String::from("could not load image")));
    assert_eq!(report.get("across_clues"), Some(String::from("no clues provided")));
    assert_eq!(report.get("down_clues"), None);
}

#[test]
fn push_replaces_the_message_of_a_field() {
    let mut report = MultiError::new();
    report.push("image", String::from("first"));
    report.push("notes", String::from("kept"));
    report.push("image", String::from("second"));
    assert_eq!(report.len(), 2);
    assert_eq!(report.get("image"), Some(String::from("second")));
    assert_eq!(report.get("notes"), Some(String::from("kept")));
}

#[test]
fn note_records_only_a_fault() {
    let mut report = MultiError::new();
    report.note("title", None);
    assert!(report.is_empty());
    report.note("title", Some(String::from("bad")));
    assert_eq!(report.get("title"), Some(String::from("bad")));
}

#[test]
fn into_error_map_hands_out_each_field_once() {
    let mut report = MultiError::new();
    report.push("a", String::from("1"));
    report.push("b", String::from("2"));
    report.push("a", String::from("3"));
    let pairs = report.into_error_map();
    assert_eq!(
        pairs,
        vec![
            (String::from("a"), String::from("3")),
            (String::from("b"), String::from("2")),
        ]
    );
}
