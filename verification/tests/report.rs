use dirsize::entry::Entry;
use dirsize::pipeline::{filter_min_size, sort_entries, take_top, SortKey};
use dirsize::summary::{cap_groups, summarize_extensions};

fn entry(path: &str, dir: bool, size: u64) -> Entry {
    Entry { path: path.to_string(), is_directory: dir, size, file_type: "X".to_string() }
}

#[test]
fn sort_by_size_is_descending_and_stable() {
    let entries = vec![
        entry("first", false, 10),
        entry("second", false, 30),
        entry("third", false, 10),
        entry("fourth", false, 20),
    ];
    let sorted = sort_entries(&entries, SortKey::Size);
    let paths: Vec<&str> = sorted.iter().map(|e| e.path.as_str()).collect();
    // equal sizes keep their input order: "first" stays ahead of "third"
    assert_eq!(paths, vec!["second", "fourth", "first", "third"]);
}

#[test]
fn sort_by_name_is_case_insensitive_ascending() {
    let entries = vec![
        entry("Zebra.txt", false, 1),
        entry("apple.txt", false, 2),
        entry("Mango.txt", false, 3),
    ];
    let sorted = sort_entries(&entries, SortKey::Name);
    let paths: Vec<&str> = sorted.iter().map(|e| e.path.as_str()).collect();
    assert_eq!(paths, vec!["apple.txt", "Mango.txt", "Zebra.txt"]);
    // names equal after lowercasing keep their input order
    let ties = vec![entry("DUP.txt", false, 1), entry("dup.TXT", false, 2)];
    let sorted_ties = sort_entries(&ties, SortKey::Name);
    assert_eq!(sorted_ties[0].path, "DUP.txt");
    assert_eq!(sorted_ties[1].path, "dup.TXT");
}

#[test]
fn sort_by_type_is_ascending_by_tag() {
    let mut a = entry("a", false, 1);
    a.file_type = "RUST".to_string();
    let mut b = entry("b", false, 2);
    b.file_type = "MARKDOWN".to_string();
    let mut c = entry("c", false, 3);
    c.file_type = "TEXT".to_string();
    let sorted = sort_entries(&vec![a, b, c], SortKey::Type);
    let tags: Vec<&str> = sorted.iter().map(|e| e.file_type.as_str()).collect();
    assert_eq!(tags, vec!["MARKDOWN", "RUST", "TEXT"]);
}

#[test]
fn min_size_filter_drops_small_entries() {
    // with a threshold of 20, sizes 13 and 17 are excluded; 20 and up stay
    let entries = vec![
        entry("a", false, 13),
        entry("b", false, 17),
        entry("c", false, 20),
        entry("d", false, 25),
    ];
    let kept = filter_min_size(&entries, 20);
    let paths: Vec<&str> = kept.iter().map(|e| e.path.as_str()).collect();
    assert_eq!(paths, vec!["c", "d"]);
}

#[test]
fn min_size_filter_is_monotonic_on_a_sample() {
    let entries = vec![
        entry("a", false, 5),
        entry("b", false, 15),
        entry("c", false, 25),
        entry("d", false, 35),
    ];
    let mut last = entries.len() + 1;
    for min in [0u64, 10, 20, 30, 40] {
        let n = filter_min_size(&entries, min).len();
        assert!(n <= last);
        last = n;
    }
}

#[test]
fn take_top_returns_a_prefix_of_at_most_n() {
    let entries = vec![
        entry("a", false, 4),
        entry("b", false, 3),
        entry("c", false, 2),
        entry("d", false, 1),
    ];
    let top = take_top(&entries, 2);
    assert_eq!(top.len(), 2);
    assert_eq!(top[0].path, "a");
    assert_eq!(top[1].path, "b");
    let all = take_top(&entries, 10);
    assert_eq!(all.len(), 4);
    let none = take_top(&entries, 0);
    assert_eq!(none.len(), 0);
}

#[test]
fn extension_summary_groups_by_lowercased_extension() {
    // x.rs (100 B), y.rs (50 B), z.py (10 B): rs -> {2, 150}, py -> {1, 10}
    let entries = vec![
        entry("x.rs", false, 100),
        entry("y.rs", false, 50),
        entry("z.py", false, 10),
    ];
    let groups = summarize_extensions(&entries);
    assert_eq!(groups.len(), 2);
    // ascending by key: "py" before "rs"
    assert_eq!(groups[0].key, "py");
    assert_eq!(groups[0].count, 1);
    assert_eq!(groups[0].bytes, 10);
    assert_eq!(groups[1].key, "rs");
    assert_eq!(groups[1].count, 2);
    assert_eq!(groups[1].bytes, 150);
}

#[test]
fn extension_summary_excludes_directories_and_uses_sentinel() {
    let entries = vec![
        entry("README", false, 9),
        entry("src", true, 1000),
        entry("Makefile.OLD", false, 5),
    ];
    let groups = summarize_extensions(&entries);
    assert_eq!(groups.len(), 2);
    assert_eq!(groups[0].key, "(none)");
    assert_eq!(groups[0].count, 1);
    assert_eq!(groups[0].bytes, 9);
    assert_eq!(groups[1].key, "old");
    assert_eq!(groups[1].count, 1);
}

#[test]
fn cap_groups_keeps_the_first_by_key_order() {
    let mut entries = Vec::new();
    for i in 0..25u64 {
        let path = format!("file.e{:02}", i);
        entries.push(entry(&path, false, i + 1));
    }
    let groups = summarize_extensions(&entries);
    assert_eq!(groups.len(), 25);
    let capped = cap_groups(&groups, 20);
    assert_eq!(capped.len(), 20);
    assert_eq!(capped[0].key, "e00");
    assert_eq!(capped[19].key, "e19");
}
