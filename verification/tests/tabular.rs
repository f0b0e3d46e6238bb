use dirsize::preview::csv_preview;

#[test]
fn preview_parses_header_and_rows() {
    let text = "name,size\na.txt,13\nb.txt,17\n";
    let rows = csv_preview(text, 10).unwrap();
    assert_eq!(rows.len(), 3);
    assert_eq!(rows[0], vec!["name".to_string(), "size".to_string()]);
    assert_eq!(rows[1], vec!["a.txt".to_string(), "13".to_string()]);
    assert_eq!(rows[2], vec!["b.txt".to_string(), "17".to_string()]);
}

#[test]
fn preview_is_bounded_to_header_plus_limit() {
    let mut text = String::from("n\n");
    for i in 0..25 {
        text.push_str(&format!("{}\n", i));
    }
    let rows = csv_preview(&text, 10).unwrap();
    assert_eq!(rows.len(), 11);
    assert_eq!(rows[0], vec!["n".to_string()]);
    assert_eq!(rows[10], vec!["9".to_string()]);
}

#[test]
fn preview_reports_malformed_input() {
    // the second record has a different number of fields
    let text = "a,b\n1,2\n3\n";
    assert!(csv_preview(text, 10).is_err());
}
