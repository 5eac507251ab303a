use ls_plus::file_entry::{FileEntry, Timestamp};
use ls_plus::filtering::{filter_entries, FileFilter};
use ls_plus::output::{render_tree, TreeLine};

fn entry(path: &str, is_dir: bool, size: u64) -> FileEntry {
    FileEntry::new(path, is_dir, size, Some(Timestamp { secs: 0, nanos: 0 }), None)
}

fn shown(entries: &Vec<FileEntry>, lines: &Vec<TreeLine>) -> Vec<String> {
    lines
        .iter()
        .map(|l| format!("{}{}{}", l.lead, entries[l.index].name(), l.suffix))
        .collect()
}

#[test]
fn tree_of_a_with_b_c_and_d_under_b() {
    let entries = vec![
        entry("a", true, 0),
        entry("a/b", true, 0),
        entry("a/c", false, 0),
        entry("a/b/d", false, 0),
    ];
    let lines = render_tree(&entries, false);
    assert_eq!(lines.len(), 4);
    let leads: Vec<&str> = lines.iter().map(|l| l.lead.as_str()).collect();
    assert_eq!(leads, vec!["└── ", "    ├── ", "    │   └── ", "    └── "]);
    let indexes: Vec<usize> = lines.iter().map(|l| l.index).collect();
    assert_eq!(indexes, vec![0, 1, 3, 2]);
    assert!(lines.iter().all(|l| l.suffix.is_empty()));
    assert_eq!(
        shown(&entries, &lines),
        vec!["└── a", "    ├── b", "    │   └── d", "    └── c"]
    );
}

#[test]
fn empty_tree_has_no_lines() {
    let lines = render_tree(&Vec::new(), true);
    assert!(lines.is_empty());
}

#[test]
fn several_roots_in_the_order_given() {
    let entries = vec![entry("z", false, 0), entry("a", true, 0), entry("m", false, 0)];
    let lines = render_tree(&entries, false);
    assert_eq!(shown(&entries, &lines), vec!["├── z", "├── a", "└── m"]);
}

#[test]
fn an_entry_without_its_parent_is_a_root() {
    let entries = vec![
        entry("top", true, 0),
        entry("top/kept", false, 0),
        entry("gone/deep/down/file", false, 0),
        entry("gone/deep/down/file/below", false, 0),
    ];
    let lines = render_tree(&entries, false);
    assert_eq!(
        shown(&entries, &lines),
        vec!["├── top", "│   └── kept", "└── file", "    └── below"]
    );
}

#[test]
fn the_tree_shows_what_a_filter_left() {
    let entries = vec![
        entry("src", true, 0),
        entry("src/.cache", true, 0),
        entry("src/.cache/blob", false, 0),
        entry("src/main.rs", false, 0),
    ];
    let kept = filter_entries(entries, &FileFilter::new());
    let lines = render_tree(&kept, false);
    assert_eq!(shown(&kept, &lines), vec!["├── src", "│   └── main.rs", "└── blob"]);
}

#[test]
fn children_follow_the_order_of_the_sequence() {
    let entries = vec![
        entry("d/3", false, 0),
        entry("d", true, 0),
        entry("d/1", false, 0),
        entry("d/2", false, 0),
    ];
    let lines = render_tree(&entries, false);
    assert_eq!(shown(&entries, &lines), vec!["└── d", "    ├── 3", "    ├── 1", "    └── 2"]);
}

#[test]
fn bars_run_down_beside_later_siblings() {
    let entries = vec![
        entry("r", true, 0),
        entry("r/a", true, 0),
        entry("r/a/x", true, 0),
        entry("r/a/x/y", false, 0),
        entry("r/a/z", false, 0),
        entry("r/b", false, 0),
        entry("s", false, 0),
    ];
    let lines = render_tree(&entries, false);
    assert_eq!(
        shown(&entries, &lines),
        vec![
            "├── r",
            "│   ├── a",
            "│   │   ├── x",
            "│   │   │   └── y",
            "│   │   └── z",
            "│   └── b",
            "└── s",
        ]
    );
}

#[test]
fn sizes_are_shown_in_parentheses() {
    let entries = vec![entry("d", true, 0), entry("d/big", false, 1536), entry("d/small", false, 12)];
    let lines = render_tree(&entries, true);
    assert_eq!(
        shown(&entries, &lines),
        vec!["└── d (0 B)", "    ├── big (1.5 KB)", "    └── small (12 B)"]
    );
    assert_eq!(lines[1].suffix, " (1.5 KB)");
}

#[test]
fn paths_are_compared_by_their_components() {
    let entries = vec![entry("./d/", true, 0), entry("d/x", false, 0), entry("./d//y", false, 0)];
    let lines = render_tree(&entries, false);
    // "./d" and "d" are different paths: the second entry has no parent here.
    assert_eq!(shown(&entries, &lines), vec!["├── d", "│   └── y", "└── x"]);
}

#[test]
fn of_two_entries_with_one_path_the_first_is_shown() {
    let entries = vec![
        entry("d", false, 1),
        entry("d", false, 2048),
        entry("d/x", false, 0),
    ];
    let lines = render_tree(&entries, true);
    let indexes: Vec<usize> = lines.iter().map(|l| l.index).collect();
    assert_eq!(indexes, vec![0, 2, 0, 2]);
    assert_eq!(
        shown(&entries, &lines),
        vec!["├── d (1 B)", "│   └── x (0 B)", "└── d (1 B)", "    └── x (0 B)"]
    );
}

#[test]
fn absolute_paths_hang_below_the_root_directory() {
    let entries = vec![entry("/", true, 0), entry("/etc", true, 0), entry("/etc/hosts", false, 0)];
    let lines = render_tree(&entries, false);
    assert_eq!(shown(&entries, &lines), vec!["└── ", "    └── etc", "        └── hosts"]);
}

#[test]
fn with_distinct_paths_every_entry_is_shown_once() {
    let entries = vec![
        entry("x/y/z", false, 1),
        entry("a", true, 0),
        entry("x", true, 0),
        entry("a/b/c", false, 2),
        entry("x/y", true, 0),
        entry("lonely/child", false, 3),
        entry("a/q", false, 4),
        entry("x/w", false, 5),
    ];
    let lines = render_tree(&entries, true);
    assert_eq!(lines.len(), entries.len());
    let mut seen: Vec<usize> = lines.iter().map(|l| l.index).collect();
    seen.sort();
    assert_eq!(seen, (0..entries.len()).collect::<Vec<usize>>());
    assert_eq!(
        shown(&entries, &lines),
        vec![
            "├── a (0 B)",
            "│   └── q (4 B)",
            "├── x (0 B)",
            "│   ├── y (0 B)",
            "│   │   └── z (1 B)",
            "│   └── w (5 B)",
            "├── c (2 B)",
            "└── child (3 B)",
        ]
    );
}

// The position of the entry at the parent path, if one stands there.
fn parent_position(entries: &Vec<FileEntry>, i: usize) -> Option<usize> {
    let parent = std::path::Path::new(entries[i].path()).parent();
    (0..entries.len()).find(|&j| Some(std::path::Path::new(entries[j].path())) == parent)
}

fn is_last_of_siblings(entries: &Vec<FileEntry>, i: usize) -> bool {
    let parent = parent_position(entries, i);
    !(i + 1..entries.len()).any(|j| parent_position(entries, j) == parent)
}

fn lead_by_ancestors(entries: &Vec<FileEntry>, i: usize) -> String {
    let mut chain = Vec::new();
    let mut at = i;
    while let Some(p) = parent_position(entries, at) {
        chain.push(p);
        at = p;
    }
    let mut lead = String::new();
    for &ancestor in chain.iter().rev() {
        lead.push_str(if is_last_of_siblings(entries, ancestor) { "    " } else { "│   " });
    }
    lead.push_str(if is_last_of_siblings(entries, i) { "└── " } else { "├── " });
    lead
}

fn mixed_listing() -> Vec<FileEntry> {
    vec![
        entry("x/y/z", false, 1),
        entry("a", true, 0),
        entry("x", true, 0),
        entry("a/b/c", false, 2),
        entry("x/y", true, 0),
        entry("lonely/child", false, 3),
        entry("a/q", false, 4),
        entry("x/w", false, 5),
        entry("x/y/k", false, 6),
        entry("a/q/deep", false, 7),
    ]
}

#[test]
fn each_line_is_indented_by_the_ancestors_of_its_entry() {
    let entries = mixed_listing();
    let lines = render_tree(&entries, false);
    assert_eq!(lines.len(), entries.len());
    for line in lines.iter() {
        assert_eq!(line.lead, lead_by_ancestors(&entries, line.index), "entry {}", line.index);
    }
}

#[test]
fn the_lines_at_depth_zero_are_those_of_the_roots() {
    let entries = mixed_listing();
    let lines = render_tree(&entries, false);
    for line in lines.iter() {
        let at_depth_zero = line.lead == "└── " || line.lead == "├── ";
        assert_eq!(line.lead.chars().count() == 4, at_depth_zero);
        assert_eq!(at_depth_zero, parent_position(&entries, line.index).is_none());
    }
    let roots: Vec<usize> =
        lines.iter().filter(|l| l.lead.chars().count() == 4).map(|l| l.index).collect();
    assert_eq!(roots, vec![1, 2, 3, 5]);
}

#[test]
fn parents_stand_above_children_and_siblings_keep_their_order() {
    let entries = mixed_listing();
    let lines = render_tree(&entries, false);
    let line_of = |i: usize| lines.iter().position(|l| l.index == i).unwrap();
    for i in 0..entries.len() {
        if let Some(p) = parent_position(&entries, i) {
            assert!(line_of(p) < line_of(i), "parent {} child {}", p, i);
        }
        for j in i + 1..entries.len() {
            if parent_position(&entries, i) == parent_position(&entries, j) {
                assert!(line_of(i) < line_of(j), "siblings {} {}", i, j);
            }
        }
    }
}
