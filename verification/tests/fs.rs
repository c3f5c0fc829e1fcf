use rnodejs::fs::Metadata;

#[test]
fn metadata_reports_its_fields() {
    let file = Metadata::new(true, false, 5);
    assert!(file.is_file());
    assert!(!file.is_dir());
    assert_eq!(file.len(), 5);
    assert!(!file.is_empty());

    let dir = Metadata::new(false, true, 0);
    assert!(dir.is_dir());
    assert!(!dir.is_file());
    assert!(dir.is_empty());
}

#[test]
fn sort_names_orders_like_str() {
    let names = vec![
        "b.txt".to_string(),
        "a.txt".to_string(),
        "c_dir".to_string(),
        "B".to_string(),
        "a".to_string(),
        "a.txt".to_string(),
        "é".to_string(),
        "z".to_string(),
    ];
    let mut expected = names.clone();
    expected.sort();
    let sorted = rnodejs::fs::sort_names(names);
    assert_eq!(sorted, expected);
    assert_eq!(sorted, vec!["B", "a", "a.txt", "a.txt", "b.txt", "c_dir", "z", "é"]);
}

#[test]
fn sort_names_of_nothing_is_nothing() {
    assert!(rnodejs::fs::sort_names(Vec::new()).is_empty());
}
