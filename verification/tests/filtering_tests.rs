use ls_plus::file_entry::{EntryMetadata, FileEntry, Timestamp};
use ls_plus::filtering::{filter_entries, is_hidden, FileFilter};

fn stamp() -> Option<Timestamp> {
    Some(Timestamp { secs: 0, nanos: 0 })
}

fn file(path: &str, size: u64) -> FileEntry {
    FileEntry::new(path, false, size, stamp(), None)
}

fn dir(path: &str) -> FileEntry {
    FileEntry::new(path, true, 0, stamp(), None)
}

fn names(entries: &Vec<FileEntry>) -> Vec<String> {
    entries.iter().map(|e| e.name().to_string()).collect()
}

#[test]
fn test_extension_filter() {
    let filter = FileFilter::new().with_extensions(vec!["rs".to_string()]);

    let rust_file = FileEntry::new("test.rs", false, 100, None, None);
    let txt_file = FileEntry::new("test.txt", false, 100, None, None);

    assert!(filter.matches(&rust_file));
    assert!(!filter.matches(&txt_file));
}

#[test]
fn test_size_filter() {
    let filter = FileFilter::new().with_size_range(Some(50), Some(150));

    let small_file = FileEntry::new("small.txt", false, 40, None, None);
    let medium_file = FileEntry::new("medium.txt", false, 100, None, None);
    let large_file = FileEntry::new("large.txt", false, 200, None, None);

    assert!(!filter.matches(&small_file));
    assert!(filter.matches(&medium_file));
    assert!(!filter.matches(&large_file));
}

#[test]
fn test_type_filter() {
    let dir_filter = FileFilter::new().dirs_only();
    let file_filter = FileFilter::new().files_only();

    let dir = FileEntry::new("test_dir", true, 0, None, None);
    let file = FileEntry::new("test.txt", false, 100, None, None);

    assert!(dir_filter.matches(&dir));
    assert!(!dir_filter.matches(&file));
    assert!(!file_filter.matches(&dir));
    assert!(file_filter.matches(&file));
}

#[test]
fn test_glob_filter() {
    let filter = FileFilter::new().with_glob("test*.txt").unwrap();

    let matching_file = FileEntry::new("test1.txt", false, 100, None, None);
    let non_matching_file = FileEntry::new("other.txt", false, 100, None, None);

    assert!(filter.matches(&matching_file));
    assert!(!filter.matches(&non_matching_file));
}

#[test]
fn test_hidden_filter() {
    let filter = FileFilter::new().show_hidden(false);

    let hidden_file = FileEntry::new(".hidden.txt", false, 100, None, None);
    let normal_file = FileEntry::new("visible.txt", false, 100, None, None);

    assert!(!filter.matches(&hidden_file));
    assert!(filter.matches(&normal_file));
}

#[test]
fn test_file_filtering() {
    let listing = || vec![file("test.txt", 0), file("test.rs", 0), dir("test_dir")];

    let by_extension = FileFilter::new().with_extensions(vec!["txt".to_string()]);
    let shown = names(&filter_entries(listing(), &by_extension));
    assert!(shown.contains(&"test.txt".to_string()));
    assert!(!shown.contains(&"test.rs".to_string()));

    let dirs = FileFilter::new().dirs_only();
    let shown = names(&filter_entries(listing(), &dirs));
    assert!(shown.contains(&"test_dir".to_string()));
    assert!(!shown.contains(&"test.txt".to_string()));

    let files = FileFilter::new().files_only();
    let shown = names(&filter_entries(listing(), &files));
    assert!(shown.contains(&"test.txt".to_string()));
    assert!(!shown.contains(&"test_dir".to_string()));
}

#[test]
fn new_filter_hides_hidden_entries_only() {
    let filter = FileFilter::new();
    assert!(filter.matches(&file("plain", 0)));
    assert!(filter.matches(&dir("folder")));
    assert!(filter.matches(&file("huge.bin", u64::MAX)));
    assert!(!filter.matches(&file(".profile", 10)));
    assert!(!filter.matches(&dir(".git")));
    assert!(!filter.matches(&file("nested/.env", 10)));
}

#[test]
fn show_hidden_lets_hidden_entries_pass() {
    let filter = FileFilter::new().show_hidden(true);
    assert!(filter.matches(&file(".profile", 10)));
    assert!(filter.matches(&file("plain", 10)));
    let again = filter.show_hidden(false);
    assert!(!again.matches(&file(".profile", 10)));
}

#[test]
fn extension_filter_compares_in_lowercase() {
    let filter = FileFilter::new().with_extensions(vec!["RS".to_string(), "Txt".to_string()]);
    assert!(filter.matches(&file("main.rs", 1)));
    assert!(filter.matches(&file("MAIN.RS", 1)));
    assert!(filter.matches(&file("notes.TXT", 1)));
    assert!(!filter.matches(&file("notes.md", 1)));
}

#[test]
fn extension_filter_refuses_files_without_extension_and_passes_directories() {
    let filter = FileFilter::new().with_extensions(vec!["rs".to_string()]);
    assert!(!filter.matches(&file("Makefile", 1)));
    assert!(!filter.matches(&file("rs", 1)));
    assert!(filter.matches(&dir("src")));
    assert!(filter.matches(&dir("target.d")));
    let hidden_too = filter.show_hidden(true);
    assert!(!hidden_too.matches(&file(".rs", 1)));
    assert!(hidden_too.matches(&file(".config.rs", 1)));
}

#[test]
fn empty_extension_list_refuses_every_file() {
    let filter = FileFilter::new().with_extensions(Vec::new());
    assert!(!filter.matches(&file("a.rs", 1)));
    assert!(filter.matches(&dir("d")));
}

#[test]
fn size_bounds_are_inclusive_and_open_where_absent() {
    let both = FileFilter::new().with_size_range(Some(50), Some(150));
    assert!(both.matches(&file("a", 50)));
    assert!(both.matches(&file("a", 150)));
    assert!(!both.matches(&file("a", 49)));
    assert!(!both.matches(&file("a", 151)));
    let least = FileFilter::new().with_size_range(Some(50), None);
    assert!(least.matches(&file("a", u64::MAX)));
    assert!(!least.matches(&file("a", 0)));
    let most = FileFilter::new().with_size_range(None, Some(50));
    assert!(most.matches(&file("a", 0)));
    assert!(!most.matches(&file("a", 51)));
    // Directories have a size of their own, 0 here, and are held to the bounds too.
    assert!(!least.matches(&dir("d")));
}

#[test]
fn the_later_kind_restriction_lifts_the_earlier() {
    let files = FileFilter::new().dirs_only().files_only();
    assert!(files.matches(&file("f", 1)));
    assert!(!files.matches(&dir("d")));
    let dirs = FileFilter::new().files_only().dirs_only();
    assert!(dirs.matches(&dir("d")));
    assert!(!dirs.matches(&file("f", 1)));
}

#[test]
fn glob_matches_the_name_not_the_path() {
    let filter = FileFilter::new().with_glob("*.rs").unwrap();
    assert!(filter.matches(&file("src/main.rs", 1)));
    assert!(!filter.matches(&file("src.rs/main.txt", 1)));
    let single = FileFilter::new().with_glob("file?.txt").unwrap();
    assert!(single.matches(&file("file1.txt", 1)));
    assert!(!single.matches(&file("file10.txt", 1)));
    let class = FileFilter::new().with_glob("[abc]*").unwrap();
    assert!(class.matches(&file("apple", 1)));
    assert!(!class.matches(&file("dog", 1)));
    let negated = FileFilter::new().with_glob("[!abc]*").unwrap();
    assert!(negated.matches(&file("dog", 1)));
    assert!(!negated.matches(&file("apple", 1)));
}

#[test]
fn glob_applies_to_directories_too() {
    let filter = FileFilter::new().with_glob("t*").unwrap();
    assert!(filter.matches(&dir("target")));
    assert!(!filter.matches(&dir("src")));
}

#[test]
fn invalid_glob_is_an_error() {
    let unterminated = FileFilter::new().with_glob("[abc");
    let error = unterminated.err().unwrap();
    assert_eq!(error.pos, 0);
    assert_eq!(error.msg, "invalid range pattern");
    assert_eq!(error.message(), "Pattern syntax error near position 0: invalid range pattern");

    let stars = FileFilter::new().with_glob("a***b").err().unwrap();
    assert_eq!(stars.pos, 3);
    assert_eq!(stars.msg, "wildcards are either regular `*` or recursive `**`");

    let recursive = FileFilter::new().with_glob("a**").err().unwrap();
    assert_eq!(recursive.msg, "recursive wildcards must form a single path component");
    assert_eq!(
        recursive.message(),
        "Pattern syntax error near position 0: recursive wildcards must form a single path component"
    );
}

#[test]
fn all_criteria_must_hold_together() {
    let filter = FileFilter::new()
        .with_extensions(vec!["txt".to_string()])
        .with_size_range(Some(10), Some(20))
        .files_only()
        .with_glob("n*")
        .unwrap();
    assert!(filter.matches(&file("notes.txt", 15)));
    assert!(!filter.matches(&file("notes.txt", 5)));
    assert!(!filter.matches(&file("notes.md", 15)));
    assert!(!filter.matches(&file("memo.txt", 15)));
    assert!(!filter.matches(&dir("notes.txt")));
    assert!(!filter.matches(&file(".notes.txt", 15)));
}

#[test]
fn matches_given_takes_the_outside_results() {
    let filter = FileFilter::new()
        .with_extensions(vec!["txt".to_string()])
        .with_glob("n*")
        .unwrap();
    let entry = file("Notes.TXT", 15);
    assert!(filter.matches_given(&entry, Some("txt"), true));
    assert!(!filter.matches_given(&entry, Some("txt"), false));
    assert!(!filter.matches_given(&entry, Some("TXT"), true));
    assert!(!filter.matches_given(&entry, None, true));
    let no_glob = FileFilter::new();
    assert!(no_glob.matches_given(&entry, None, false));
}

#[test]
fn filtering_keeps_the_order() {
    let entries = vec![
        file("e.txt", 1),
        file(".d.txt", 1),
        file("c.rs", 1),
        file("b.txt", 1),
        dir("a"),
        file("a.txt", 1),
    ];
    let filter = FileFilter::new().with_extensions(vec!["txt".to_string()]);
    let kept = filter_entries(entries, &filter);
    assert_eq!(names(&kept), vec!["e.txt", "b.txt", "a", "a.txt"]);
    for entry in kept.iter() {
        assert!(filter.matches(entry));
    }
}

#[test]
fn filtering_nothing_gives_nothing() {
    let kept = filter_entries(Vec::new(), &FileFilter::new());
    assert!(kept.is_empty());
    let none = filter_entries(vec![file(".a", 1), file(".b", 1)], &FileFilter::new());
    assert!(none.is_empty());
}

#[test]
fn filtering_changes_no_entry() {
    let entries = vec![FileEntry::new("dir/a.txt", false, 7, stamp(), stamp())];
    let kept = filter_entries(entries, &FileFilter::new());
    assert_eq!(kept.len(), 1);
    assert_eq!(kept[0].path(), "dir/a.txt");
    assert_eq!(kept[0].size(), 7);
    assert_eq!(kept[0].created(), stamp());
}

#[test]
fn is_hidden_goes_by_the_file_name() {
    assert!(is_hidden(".hidden"));
    assert!(is_hidden("dir/.hidden"));
    assert!(is_hidden("/abs/.config/"));
    assert!(!is_hidden("visible"));
    assert!(!is_hidden(".config/visible"));
    assert!(!is_hidden(""));
    assert!(!is_hidden("."));
    assert!(!is_hidden(".."));
    assert!(!is_hidden("dir/.."));
    assert!(!is_hidden("/"));
}

#[test]
fn a_least_size_drops_directories_whatever_their_length() {
    let reported = |is_dir: bool, size: u64| EntryMetadata {
        is_dir,
        size,
        modified: stamp(),
        created: None,
        mode: 0o755,
        owner: None,
        group: None,
    };
    let entries = vec![
        FileEntry::from_metadata("dir", &reported(true, 4096)),
        FileEntry::from_metadata("file", &reported(false, 4096)),
        FileEntry::from_metadata("empty", &reported(false, 0)),
    ];
    let filter = FileFilter::new().with_size_range(Some(1), None);
    assert_eq!(names(&filter_entries(entries, &filter)), vec!["file"]);
}
