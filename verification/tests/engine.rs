use dirsize::collect::{get_first_layer_full_sizes, total_of_entries};
use dirsize::entry::Entry;
use dirsize::tree::{calculate_total_size, Node, ScanError};

fn sample_tree(root_name: &str) -> Node {
    Node::Dir {
        name: root_name.to_string(),
        children: vec![
            Node::File { name: "file1.txt".to_string(), size: 13 },
            Node::Dir {
                name: "sub_dir".to_string(),
                children: vec![Node::File { name: "file2.txt".to_string(), size: 17 }],
            },
        ],
    }
}

#[test]
fn test_calculate_total_size() {
    let tree = sample_tree("test_calculate_total_size");
    let size = calculate_total_size(&tree).unwrap();
    assert_eq!(size, 13 + 17);
}

#[test]
fn test_get_first_layer_full_sizes() {
    let tree = sample_tree("test_get_first_layer_full_sizes");
    let entries = get_first_layer_full_sizes(&tree, false, true).unwrap();
    let file = entries.iter().find(|e| e.path == "file1.txt").unwrap();
    assert_eq!(file.size, 13);
    let sub = entries.iter().find(|e| e.path == "sub_dir").unwrap();
    assert_eq!(sub.size, 17);
}

#[test]
fn first_layer_scenario() {
    // a.txt (13 bytes) and sub/ holding b.txt (17 bytes): total 30,
    // the subdirectory accumulates to 17, and the report has two entries.
    let sub = Node::Dir {
        name: "sub".to_string(),
        children: vec![Node::File { name: "b.txt".to_string(), size: 17 }],
    };
    assert_eq!(calculate_total_size(&sub).unwrap(), 17);
    let root = Node::Dir {
        name: "root".to_string(),
        children: vec![Node::File { name: "a.txt".to_string(), size: 13 }, sub],
    };
    assert_eq!(calculate_total_size(&root).unwrap(), 30);
    let entries = get_first_layer_full_sizes(&root, false, true).unwrap();
    assert_eq!(entries.len(), 2);
    assert_eq!(entries[0].path, "a.txt");
    assert_eq!(entries[0].size, 13);
    assert!(!entries[0].is_directory);
    assert_eq!(entries[1].path, "sub");
    assert_eq!(entries[1].size, 17);
    assert!(entries[1].is_directory);
    assert_eq!(entries[1].file_type, "-");
    assert_eq!(total_of_entries(&entries), 30);
}

#[test]
fn empty_directory_accumulates_to_zero() {
    let tree = Node::Dir { name: "empty".to_string(), children: vec![] };
    assert_eq!(calculate_total_size(&tree).unwrap(), 0);
}

#[test]
fn denied_subtree_counts_zero_and_scan_succeeds() {
    let tree = Node::Dir {
        name: "root".to_string(),
        children: vec![
            Node::File { name: "kept.bin".to_string(), size: 40 },
            Node::Denied { name: "secrets".to_string() },
        ],
    };
    assert_eq!(calculate_total_size(&tree).unwrap(), 40);
    let entries = get_first_layer_full_sizes(&tree, false, true).unwrap();
    assert_eq!(entries.len(), 1);
    assert_eq!(entries[0].path, "kept.bin");
}

#[test]
fn hard_failure_aborts_accumulation() {
    let tree = Node::Dir {
        name: "root".to_string(),
        children: vec![
            Node::File { name: "a".to_string(), size: 1 },
            Node::Failed { name: "bad".to_string() },
        ],
    };
    assert!(matches!(calculate_total_size(&tree), Err(ScanError::ReadFailed)));
}

#[test]
fn failing_child_is_skipped_not_fatal() {
    let bad_dir = Node::Dir {
        name: "cursed".to_string(),
        children: vec![Node::Failed { name: "ghost".to_string() }],
    };
    let tree = Node::Dir {
        name: "root".to_string(),
        children: vec![Node::File { name: "ok.txt".to_string(), size: 5 }, bad_dir],
    };
    let entries = get_first_layer_full_sizes(&tree, false, true).unwrap();
    assert_eq!(entries.len(), 1);
    assert_eq!(entries[0].path, "ok.txt");
}

#[test]
fn file_root_is_not_a_directory() {
    let tree = Node::File { name: "plain.txt".to_string(), size: 3 };
    assert!(matches!(
        get_first_layer_full_sizes(&tree, false, true),
        Err(ScanError::NotADirectory)
    ));
}

#[test]
fn depth_limited_scan_reports_directories_as_zero() {
    let tree = sample_tree("root");
    let entries = get_first_layer_full_sizes(&tree, false, false).unwrap();
    let sub = entries.iter().find(|e| e.path == "sub_dir").unwrap();
    assert_eq!(sub.size, 0);
    let file = entries.iter().find(|e| e.path == "file1.txt").unwrap();
    assert_eq!(file.size, 13);
}

#[test]
fn smart_ignore_drops_noisy_names_at_first_layer() {
    let tree = Node::Dir {
        name: "root".to_string(),
        children: vec![
            Node::Dir {
                name: "node_modules".to_string(),
                children: vec![Node::File { name: "x.js".to_string(), size: 1000 }],
            },
            Node::File { name: "main.rs".to_string(), size: 7 },
        ],
    };
    let entries = get_first_layer_full_sizes(&tree, true, true).unwrap();
    assert_eq!(entries.len(), 1);
    assert_eq!(entries[0].path, "main.rs");
    let all = get_first_layer_full_sizes(&tree, false, true).unwrap();
    assert_eq!(all.len(), 2);
}

#[test]
fn sizes_saturate_instead_of_overflowing() {
    let tree = Node::Dir {
        name: "root".to_string(),
        children: vec![
            Node::File { name: "a".to_string(), size: u64::MAX },
            Node::File { name: "b".to_string(), size: 100 },
        ],
    };
    assert_eq!(calculate_total_size(&tree).unwrap(), u64::MAX);
    let entries = get_first_layer_full_sizes(&tree, false, true).unwrap();
    assert_eq!(total_of_entries(&entries), u64::MAX);
}

#[test]
fn total_of_entries_sums_all_sizes() {
    let entries = vec![
        Entry { path: "a".to_string(), is_directory: false, size: 10, file_type: "X".to_string() },
        Entry { path: "b".to_string(), is_directory: true, size: 32, file_type: "-".to_string() },
    ];
    assert_eq!(total_of_entries(&entries), 42);
    assert_eq!(total_of_entries(&Vec::new()), 0);
}
