use dirsize::naming::{format_root_name, get_file_type, is_ignored_name};
use dirsize::render::format_size;

#[test]
fn test_format_size() {
    assert_eq!(format_size(0), "0 B");
    assert_eq!(format_size(1), "1 B");
    assert_eq!(format_size(1023), "1023 B");
    assert_eq!(format_size(1024), "1.00 KB");
    assert_eq!(format_size(1024 * 1024), "1.00 MB");
    assert_eq!(format_size(1024 * 1024 * 1024), "1.00 GB");
}

#[test]
fn format_size_rounds_to_two_decimals() {
    assert_eq!(format_size(1536), "1.50 KB");
    assert_eq!(format_size(1024 + 512 + 256), "1.75 KB");
    assert_eq!(format_size(10 * 1024 * 1024 + 1024 * 512), "10.50 MB");
    assert_eq!(format_size(3 * 1024 * 1024 * 1024 + 256 * 1024 * 1024), "3.25 GB");
}

#[test]
fn test_get_file_type() {
    assert_eq!(get_file_type("test.rs"), "RUST");
    assert_eq!(get_file_type("test.py"), "PYTHON");
    assert_eq!(get_file_type("test.unknown"), "UNKNOWN");
    assert_eq!(get_file_type("file"), "DOT FILE"); // No extension
}

#[test]
fn file_type_uses_the_final_component() {
    assert_eq!(get_file_type("some/dir.d/notes.md"), "MARKDOWN");
    assert_eq!(get_file_type("a/b/archive.TAR"), "TAR");
    assert_eq!(get_file_type("a/.hidden"), "DOT FILE");
    assert_eq!(get_file_type("music/song.mp3"), "MP3 AUDIO");
}

#[test]
fn test_format_root_name() {
    assert_eq!(format_root_name("/path/to/file.txt"), "file.txt");
    assert_eq!(format_root_name("/path/to/directory"), "directory");
    assert_eq!(format_root_name("/path/to/unknown"), "unknown");
}

#[test]
fn root_name_edge_cases() {
    assert_eq!(format_root_name("dir/"), "dir");
    assert_eq!(format_root_name("/"), "UNKNOWN");
    assert_eq!(format_root_name(""), "UNKNOWN");
    assert_eq!(format_root_name("a/b/.."), "UNKNOWN");
    assert_eq!(format_root_name("a/."), "a");
}

#[test]
fn ignore_set_is_fixed_and_case_insensitive() {
    assert!(is_ignored_name(".git"));
    assert!(is_ignored_name(".GIT"));
    assert!(is_ignored_name("Node_Modules"));
    assert!(is_ignored_name("target"));
    assert!(is_ignored_name("dist"));
    assert!(is_ignored_name("build"));
    assert!(is_ignored_name(".idea"));
    assert!(is_ignored_name(".vscode"));
    assert!(!is_ignored_name("src"));
    assert!(!is_ignored_name("gitignore"));
}
