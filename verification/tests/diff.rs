use tpmt::diff::{diff_report, find_files_dir, str_lt, FilesDir, HashEntry};

fn h(path: &str, hash: &str) -> HashEntry {
    HashEntry { path: path.to_string(), hash: hash.to_string() }
}

// Verifies the diff reports changed files when the folder copy diverges from the disc.
#[test]
fn diff_reports_changed_files() {
    let iso = vec![h("a.txt", "1111")];
    let folder = vec![h("a.txt", "2222")];
    assert!(diff_report(&iso, &folder).contains("Changed:"));
}

#[test]
fn diff_report_lists_changed_then_added_sorted() {
    let iso = vec![h("b.txt", "1"), h("a.txt", "1"), h("same.txt", "9")];
    let folder = vec![h("b.txt", "2"), h("new2", "x"), h("a.txt", "2"), h("new1", "y"), h("same.txt", "9")];
    assert_eq!(
        diff_report(&iso, &folder),
        "Changed:\n  a.txt\n  b.txt\nAdded:\n  new1\n  new2\n"
    );
}

#[test]
fn diff_report_is_empty_when_nothing_differs() {
    let iso = vec![h("a.txt", "1")];
    assert_eq!(diff_report(&iso, &[h("a.txt", "1")]), "");
}

#[test]
fn str_lt_orders_by_characters_then_length() {
    assert!(str_lt("a", "b"));
    assert!(str_lt("a", "ab"));
    assert!(!str_lt("b", "a"));
    assert!(!str_lt("a", "a"));
}

#[test]
fn files_dir_is_found_by_name_or_child() {
    assert!(matches!(find_files_dir("/tmp/out/files", false), FilesDir::Itself));
    assert!(matches!(find_files_dir("/tmp/out", true), FilesDir::Child));
    assert!(matches!(find_files_dir("/tmp/out", false), FilesDir::NotFound));
}
