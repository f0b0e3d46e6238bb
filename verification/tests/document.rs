use dirsize::codec::{entries_to_json, parse_entries};
use dirsize::entry::Entry;

fn entry(path: &str, dir: bool, size: u64, tag: &str) -> Entry {
    Entry { path: path.to_string(), is_directory: dir, size, file_type: tag.to_string() }
}

fn assert_same(a: &[Entry], b: &[Entry]) {
    assert_eq!(a.len(), b.len());
    for (x, y) in a.iter().zip(b.iter()) {
        assert_eq!(x.path, y.path);
        assert_eq!(x.is_directory, y.is_directory);
        assert_eq!(x.size, y.size);
        assert_eq!(x.file_type, y.file_type);
    }
}

#[test]
fn document_shape_is_stable() {
    let entries = vec![entry("a.txt", false, 13, "TEXT")];
    let text = entries_to_json(&entries);
    assert_eq!(
        text,
        "[{\"path\":\"a.txt\",\"is_directory\":false,\"size\":13,\"file_type\":\"TEXT\"}]"
    );
    assert_eq!(entries_to_json(&Vec::new()), "[]");
}

#[test]
fn round_trip_reproduces_every_field() {
    let entries = vec![
        entry("a.txt", false, 13, "TEXT"),
        entry("sub", true, 17, "-"),
        entry("big.bin", false, u64::MAX, "BIN"),
    ];
    let text = entries_to_json(&entries);
    let back = parse_entries(&text).unwrap();
    assert_same(&entries, &back);
}

#[test]
fn round_trip_escapes_quotes_and_backslashes() {
    let entries = vec![
        entry("we\"ird\\name.txt", false, 1, "TE\"XT"),
        entry("\\\\server\\share", true, 2, "-"),
    ];
    let text = entries_to_json(&entries);
    let back = parse_entries(&text).unwrap();
    assert_same(&entries, &back);
}

#[test]
fn round_trip_of_empty_collection() {
    let text = entries_to_json(&Vec::new());
    let back = parse_entries(&text).unwrap();
    assert_eq!(back.len(), 0);
}

#[test]
fn malformed_documents_are_rejected() {
    assert!(parse_entries("").is_none());
    assert!(parse_entries("[").is_none());
    assert!(parse_entries("{}").is_none());
    assert!(parse_entries("[{\"path\":\"a\"}]").is_none());
    assert!(parse_entries(
        "[{\"path\":\"a\",\"is_directory\":false,\"size\":99999999999999999999999,\"file_type\":\"T\"}]"
    )
    .is_none());
    assert!(parse_entries(
        "[{\"path\":\"a\",\"is_directory\":false,\"size\":1,\"file_type\":\"T\"}"
    )
    .is_none());
}
