use ls_plus::file_entry::{EntryMetadata, FileEntry, Timestamp};
use ls_plus::sorting::{
    extract_number, natural_rank, natural_sort, rank_entries, sort_entries, text_rank, time_rank,
    Rank, SortField, SortOrder,
};
use std::cmp::Ordering;

fn at(secs: i64) -> Timestamp {
    Timestamp { secs, nanos: 0 }
}

fn file(path: &str, size: u64) -> FileEntry {
    FileEntry::new(path, false, size, Some(at(0)), None)
}

fn dir(path: &str) -> FileEntry {
    FileEntry::new(path, true, 0, Some(at(0)), None)
}

fn names(entries: &Vec<FileEntry>) -> Vec<String> {
    entries.iter().map(|e| e.name().to_string()).collect()
}

#[test]
fn test_natural_sort() {
    let mut files = vec!["file10.txt", "file2.txt", "file1.txt", "file20.txt"];
    files.sort_by(|a, b| natural_sort(a, b));
    assert_eq!(
        files,
        vec!["file1.txt", "file2.txt", "file10.txt", "file20.txt",]
    );
}

#[test]
fn test_sort_field_from_str() {
    assert_eq!(SortField::from_str("name"), Some(SortField::Name));
    assert_eq!(SortField::from_str("size"), Some(SortField::Size));
    assert_eq!(SortField::from_str("modified"), Some(SortField::Modified));
    assert_eq!(SortField::from_str("invalid"), None);
}

#[test]
fn test_sort_order_from_str() {
    assert_eq!(SortOrder::from_str("asc"), Some(SortOrder::Ascending));
    assert_eq!(SortOrder::from_str("desc"), Some(SortOrder::Descending));
    assert_eq!(SortOrder::from_str("invalid"), None);
}

#[test]
fn test_sorting() {
    let mut entries = vec![file("a.txt", 100), file("b.txt", 200)];
    sort_entries(&mut entries, SortField::Size, SortOrder::Descending);
    let shown = names(&entries);
    let b_txt_index = shown.iter().position(|n| n == "b.txt").unwrap();
    let a_txt_index = shown.iter().position(|n| n == "a.txt").unwrap();
    assert!(b_txt_index < a_txt_index, "Files not sorted correctly by size");
}

#[test]
fn sort_field_names_in_any_case() {
    assert_eq!(SortField::from_str("NAME"), Some(SortField::Name));
    assert_eq!(SortField::from_str("Created"), Some(SortField::Created));
    assert_eq!(SortField::from_str("tYPe"), Some(SortField::Type));
    assert_eq!(SortField::from_str(""), None);
    assert_eq!(SortField::from_str("names"), None);
}

#[test]
fn sort_field_exact_names_only() {
    assert_eq!(SortField::from_exact("created"), Some(SortField::Created));
    assert_eq!(SortField::from_exact("type"), Some(SortField::Type));
    assert_eq!(SortField::from_exact("Name"), None);
}

#[test]
fn sort_order_long_names_and_case() {
    assert_eq!(SortOrder::from_str("ascending"), Some(SortOrder::Ascending));
    assert_eq!(SortOrder::from_str("descending"), Some(SortOrder::Descending));
    assert_eq!(SortOrder::from_str("DESC"), Some(SortOrder::Descending));
    assert_eq!(SortOrder::from_exact("Asc"), None);
    assert_eq!(SortOrder::from_exact("asc"), Some(SortOrder::Ascending));
}

#[test]
fn natural_sort_by_name_of_entries() {
    let mut entries = vec![
        file("file10.txt", 1),
        file("file2.txt", 1),
        file("file1.txt", 1),
        file("file20.txt", 1),
    ];
    sort_entries(&mut entries, SortField::Name, SortOrder::Ascending);
    assert_eq!(names(&entries), vec!["file1.txt", "file2.txt", "file10.txt", "file20.txt"]);
    sort_entries(&mut entries, SortField::Name, SortOrder::Descending);
    assert_eq!(names(&entries), vec!["file20.txt", "file10.txt", "file2.txt", "file1.txt"]);
}

#[test]
fn natural_order_compares_runs_of_digits_as_numbers() {
    assert_eq!(natural_sort("a9", "a10"), Ordering::Less);
    assert_eq!(natural_sort("a10", "a9"), Ordering::Greater);
    assert_eq!(natural_sort("a007", "a7"), Ordering::Equal);
    assert_eq!(natural_sort("a007b", "a7a"), Ordering::Greater);
    assert_eq!(natural_sort("1x2", "1x10"), Ordering::Less);
}

#[test]
fn natural_order_of_plain_characters() {
    assert_eq!(natural_sort("", ""), Ordering::Equal);
    assert_eq!(natural_sort("", "a"), Ordering::Less);
    assert_eq!(natural_sort("a", ""), Ordering::Greater);
    assert_eq!(natural_sort("abc", "abd"), Ordering::Less);
    assert_eq!(natural_sort("abc", "ab"), Ordering::Greater);
    assert_eq!(natural_sort("B", "a"), Ordering::Less);
    // A digit against another character goes by the characters.
    assert_eq!(natural_sort("a1", "ab"), Ordering::Less);
    assert_eq!(natural_sort("a1", "a-"), Ordering::Greater);
}

#[test]
fn natural_order_is_a_total_preorder_on_samples() {
    let samples = [
        "", "a", "a1", "a01", "a2", "a10", "b", "1", "01", "10", "9", "a-1", "a1b", "a1c", "z9z",
        "file", "file1", "file1.txt", "file10", "é1", "é01",
    ];
    for a in samples.iter() {
        assert_eq!(natural_rank(a, a), Rank::Same);
        for b in samples.iter() {
            assert_eq!(natural_rank(a, b), natural_rank(b, a).reversed());
            for c in samples.iter() {
                if natural_rank(a, b) != Rank::Higher && natural_rank(b, c) != Rank::Higher {
                    assert_ne!(natural_rank(a, c), Rank::Higher, "{:?} {:?} {:?}", a, b, c);
                }
            }
        }
    }
}

#[test]
fn natural_order_wraps_numbers_beyond_64_bits() {
    // 2^64 wraps to 0, and 2^64 + 5 to 5.
    assert_eq!(natural_sort("n18446744073709551616", "n0"), Ordering::Equal);
    assert_eq!(natural_sort("n18446744073709551621", "n5"), Ordering::Equal);
    assert_eq!(natural_sort("n18446744073709551615", "n18446744073709551614"), Ordering::Greater);
}

#[test]
fn extract_number_reads_one_run() {
    let mut rest = "23abc".chars();
    let (number, next) = extract_number(Some('1'), &mut rest);
    assert_eq!(number, 123);
    assert_eq!(next, Some('a'));
    assert_eq!(rest.as_str(), "bc");

    let mut rest = "".chars();
    assert_eq!(extract_number(Some('7'), &mut rest), (7, None));

    let mut rest = "x".chars();
    assert_eq!(extract_number(Some('0'), &mut rest), (0, Some('x')));
    assert_eq!(rest.as_str(), "");

    let mut rest = "8446744073709551615".chars();
    assert_eq!(extract_number(Some('1'), &mut rest), (u64::MAX, None));
}

#[test]
fn extract_number_takes_the_whole_run_not_one_digit() {
    let mut rest = "007x9".chars();
    assert_eq!(extract_number(None, &mut rest), (7, Some('x')));
    assert_eq!(rest.as_str(), "9");
    let mut rest = "42".chars();
    assert_eq!(extract_number(None, &mut rest), (42, None));
    assert_eq!(rest.as_str(), "");
}

#[test]
fn extract_number_of_an_empty_run_is_zero() {
    // No digit at the front: nothing is used up, the character is handed back.
    let mut rest = "12".chars();
    assert_eq!(extract_number(Some('a'), &mut rest), (0, Some('a')));
    assert_eq!(rest.as_str(), "12");

    let mut rest = "".chars();
    assert_eq!(extract_number(Some('-'), &mut rest), (0, Some('-')));

    let mut rest = "x1".chars();
    assert_eq!(extract_number(None, &mut rest), (0, Some('x')));
    assert_eq!(rest.as_str(), "1");

    // Nothing at all to read.
    let mut rest = "".chars();
    assert_eq!(extract_number(None, &mut rest), (0, None));
}

#[test]
fn text_rank_orders_by_characters() {
    assert_eq!(text_rank("", ""), Rank::Same);
    assert_eq!(text_rank("rs", "txt"), Rank::Lower);
    assert_eq!(text_rank("txt", "rs"), Rank::Higher);
    assert_eq!(text_rank("a10", "a9"), Rank::Lower);
    assert_eq!(text_rank("ab", "abc"), Rank::Lower);
    assert_eq!(text_rank("é", "z"), Rank::Higher);
    for (a, b) in [("", "x"), ("abc", "abd"), ("é", "e"), ("z", "é"), ("A", "a")] {
        let expected = match a.cmp(b) {
            Ordering::Less => Rank::Lower,
            Ordering::Equal => Rank::Same,
            Ordering::Greater => Rank::Higher,
        };
        assert_eq!(text_rank(a, b), expected);
    }
}

#[test]
fn time_rank_orders_by_seconds_and_nanoseconds() {
    let early = Timestamp { secs: 10, nanos: 999 };
    let late = Timestamp { secs: 11, nanos: 0 };
    assert_eq!(time_rank(early, late), Rank::Lower);
    assert_eq!(time_rank(late, early), Rank::Higher);
    assert_eq!(time_rank(early, early), Rank::Same);
    assert_eq!(time_rank(Timestamp { secs: -1, nanos: 5 }, Timestamp { secs: -1, nanos: 6 }), Rank::Lower);
    assert_eq!(time_rank(Timestamp { secs: -2, nanos: 900 }, Timestamp { secs: -1, nanos: 0 }), Rank::Lower);
}

#[test]
fn rank_reversed_turns_the_comparison() {
    assert_eq!(Rank::Lower.reversed(), Rank::Higher);
    assert_eq!(Rank::Same.reversed(), Rank::Same);
    assert_eq!(Rank::Higher.reversed(), Rank::Lower);
}

#[test]
fn size_sort_descending_puts_the_larger_first() {
    let mut entries = vec![file("small", 100), file("large", 200)];
    sort_entries(&mut entries, SortField::Size, SortOrder::Descending);
    assert_eq!(names(&entries), vec!["large", "small"]);
    sort_entries(&mut entries, SortField::Size, SortOrder::Ascending);
    assert_eq!(names(&entries), vec!["small", "large"]);
}

#[test]
fn type_sort_ascending_puts_directories_first() {
    let mut entries = vec![
        file("b.txt", 1),
        dir("zeta"),
        file("a.rs", 1),
        file("noext", 1),
        dir("alpha.d"),
        file("c.md", 1),
    ];
    sort_entries(&mut entries, SortField::Type, SortOrder::Ascending);
    assert_eq!(names(&entries), vec!["zeta", "alpha.d", "noext", "c.md", "a.rs", "b.txt"]);
    let first_file = entries.iter().position(|e| !e.is_dir()).unwrap();
    assert!(entries[first_file..].iter().all(|e| !e.is_dir()));
}

#[test]
fn type_sort_descending_reverses_the_groups_too() {
    let mut entries = vec![file("b.txt", 1), dir("zeta"), file("a.rs", 1), dir("alpha.d")];
    sort_entries(&mut entries, SortField::Type, SortOrder::Descending);
    assert_eq!(names(&entries), vec!["b.txt", "a.rs", "alpha.d", "zeta"]);
}

#[test]
fn sort_is_stable() {
    let mut entries = vec![
        file("first", 5),
        file("second", 3),
        file("third", 5),
        file("fourth", 3),
        file("fifth", 5),
    ];
    sort_entries(&mut entries, SortField::Size, SortOrder::Ascending);
    assert_eq!(names(&entries), vec!["second", "fourth", "first", "third", "fifth"]);
    let mut entries = vec![
        file("first", 5),
        file("second", 3),
        file("third", 5),
        file("fourth", 3),
        file("fifth", 5),
    ];
    sort_entries(&mut entries, SortField::Size, SortOrder::Descending);
    assert_eq!(names(&entries), vec!["first", "third", "fifth", "second", "fourth"]);
}

#[test]
fn sort_keeps_every_entry() {
    let mut entries: Vec<FileEntry> = Vec::new();
    let mut seed: u64 = 12345;
    for i in 0..200 {
        seed = seed.wrapping_mul(6364136223846793005).wrapping_add(1442695040888963407);
        entries.push(file(&format!("f{}", i), (seed >> 33) % 50));
    }
    sort_entries(&mut entries, SortField::Size, SortOrder::Ascending);
    assert_eq!(entries.len(), 200);
    for pair in entries.windows(2) {
        assert!(pair[0].size() <= pair[1].size());
        if pair[0].size() == pair[1].size() {
            let a: u32 = pair[0].name()[1..].parse().unwrap();
            let b: u32 = pair[1].name()[1..].parse().unwrap();
            assert!(a < b);
        }
    }
    let mut seen: Vec<String> = names(&entries);
    seen.sort();
    seen.dedup();
    assert_eq!(seen.len(), 200);
}

#[test]
fn sort_of_nothing_and_of_one() {
    let mut entries: Vec<FileEntry> = Vec::new();
    sort_entries(&mut entries, SortField::Name, SortOrder::Ascending);
    assert!(entries.is_empty());
    let mut entries = vec![file("only", 1)];
    sort_entries(&mut entries, SortField::Modified, SortOrder::Descending);
    assert_eq!(names(&entries), vec!["only"]);
}

#[test]
fn modified_sort_is_chronological() {
    let mut entries = vec![
        FileEntry::new("noon", false, 0, Some(at(43_200)), None),
        FileEntry::new("dawn", false, 0, Some(at(21_600)), None),
        FileEntry::new("dusk", false, 0, Some(at(64_800)), None),
    ];
    sort_entries(&mut entries, SortField::Modified, SortOrder::Ascending);
    assert_eq!(names(&entries), vec!["dawn", "noon", "dusk"]);
    sort_entries(&mut entries, SortField::Modified, SortOrder::Descending);
    assert_eq!(names(&entries), vec!["dusk", "noon", "dawn"]);
}

#[test]
fn created_sort_puts_unknown_times_first_ascending() {
    let mut entries = vec![
        FileEntry::new("late", false, 0, Some(at(0)), Some(at(200))),
        FileEntry::new("unknown", false, 0, Some(at(0)), None),
        FileEntry::new("early", false, 0, Some(at(0)), Some(at(100))),
    ];
    sort_entries(&mut entries, SortField::Created, SortOrder::Ascending);
    assert_eq!(names(&entries), vec!["unknown", "early", "late"]);
    sort_entries(&mut entries, SortField::Created, SortOrder::Descending);
    assert_eq!(names(&entries), vec!["late", "early", "unknown"]);
}

#[test]
fn rank_entries_by_each_field() {
    let meta = |size: u64, secs: i64| EntryMetadata {
        is_dir: false,
        size,
        modified: Some(at(secs)),
        created: Some(at(secs + 1)),
        mode: 0o644,
        owner: None,
        group: None,
    };
    let a = FileEntry::from_metadata("a2.rs", &meta(10, 500));
    let b = FileEntry::from_metadata("a10.txt", &meta(5, 900));
    assert_eq!(rank_entries(&a, &b, SortField::Name, SortOrder::Ascending), Rank::Lower);
    assert_eq!(rank_entries(&a, &b, SortField::Name, SortOrder::Descending), Rank::Higher);
    assert_eq!(rank_entries(&a, &b, SortField::Size, SortOrder::Ascending), Rank::Higher);
    assert_eq!(rank_entries(&a, &b, SortField::Modified, SortOrder::Ascending), Rank::Lower);
    assert_eq!(rank_entries(&a, &b, SortField::Created, SortOrder::Ascending), Rank::Lower);
    assert_eq!(rank_entries(&a, &b, SortField::Type, SortOrder::Ascending), Rank::Lower);
    assert_eq!(rank_entries(&a, &a, SortField::Type, SortOrder::Descending), Rank::Same);
}
