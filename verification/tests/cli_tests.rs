use ls_plus::cli::{CliError, OutputFormat, CLI};
use ls_plus::file_entry::{FileEntry, Timestamp};
use ls_plus::filtering::{filter_entries, FileFilter};
use ls_plus::output::{render_tree, summarize, summary_lines};
use ls_plus::sorting::{sort_entries, SortField, SortOrder};

fn defaults() -> CLI {
    CLI {
        path: None,
        format: "table".to_string(),
        all: false,
        recursive: false,
        max_depth: None,
        sort: "name".to_string(),
        order: "asc".to_string(),
        extensions: None,
        min_size: None,
        max_size: None,
        human_readable: false,
        no_color: false,
        dirs_only: false,
        files_only: false,
        glob: None,
        summary: false,
    }
}

fn entry(path: &str, is_dir: bool, size: u64) -> FileEntry {
    FileEntry::new(path, is_dir, size, Some(Timestamp { secs: 0, nanos: 0 }), None)
}

fn listing() -> Vec<FileEntry> {
    vec![
        entry("b.txt", false, 30),
        entry(".hidden", false, 5),
        entry("src", true, 0),
        entry("a.RS", false, 300),
        entry("notes.md", false, 3),
    ]
}

fn names(entries: &Vec<FileEntry>) -> Vec<String> {
    entries.iter().map(|e| e.name().to_string()).collect()
}

fn accepted(filter: &FileFilter) -> Vec<String> {
    names(&filter_entries(listing(), filter))
}

#[test]
fn default_options_hide_hidden_entries_only() {
    let filter = defaults().filter().ok().unwrap();
    assert_eq!(accepted(&filter), vec!["b.txt", "src", "a.RS", "notes.md"]);
}

#[test]
fn all_shows_hidden_entries() {
    let cli = CLI { all: true, ..defaults() };
    let filter = cli.filter().ok().unwrap();
    assert_eq!(accepted(&filter), vec!["b.txt", ".hidden", "src", "a.RS", "notes.md"]);
}

#[test]
fn options_build_the_filter_they_name() {
    let cli = CLI {
        extensions: Some(vec!["RS".to_string(), "txt".to_string()]),
        min_size: Some(10),
        max_size: Some(1000),
        ..defaults()
    };
    let filter = cli.filter().ok().unwrap();
    // The directory is refused by the size bounds.
    assert_eq!(accepted(&filter), vec!["b.txt", "a.RS"]);
    let cli = CLI { glob: Some("*.md".to_string()), files_only: true, ..defaults() };
    assert_eq!(accepted(&cli.filter().ok().unwrap()), vec!["notes.md"]);
}

#[test]
fn directories_only_wins_over_files_only() {
    let cli = CLI { dirs_only: true, files_only: true, ..defaults() };
    assert_eq!(accepted(&cli.filter().ok().unwrap()), vec!["src"]);
    let cli = CLI { files_only: true, ..defaults() };
    assert_eq!(accepted(&cli.filter().ok().unwrap()), vec!["b.txt", "a.RS", "notes.md"]);
}

#[test]
fn invalid_glob_is_reported() {
    let cli = CLI { glob: Some("[".to_string()), ..defaults() };
    let error = cli.filter().err().unwrap();
    assert!(matches!(error, CliError::InvalidGlob(_)));
    assert_eq!(
        error.message(),
        "Error: Invalid glob pattern: Pattern syntax error near position 0: invalid range pattern"
    );
}

#[test]
fn sort_field_and_order_are_parsed() {
    let cli = CLI { sort: "Size".to_string(), order: "DESC".to_string(), ..defaults() };
    assert_eq!(cli.sort_field().ok(), Some(SortField::Size));
    assert_eq!(cli.sort_order().ok(), Some(SortOrder::Descending));
    assert_eq!(defaults().sort_field().ok(), Some(SortField::Name));
    assert_eq!(defaults().sort_order().ok(), Some(SortOrder::Ascending));
}

#[test]
fn invalid_sort_field_is_reported() {
    let cli = CLI { sort: "Colour".to_string(), ..defaults() };
    let error = cli.sort_field().err().unwrap();
    assert!(matches!(&error, CliError::InvalidSortField(s) if s == "Colour"));
    assert_eq!(error.message(), "Error: Invalid sort field: Colour");
}

#[test]
fn invalid_sort_order_is_reported() {
    let cli = CLI { order: "sideways".to_string(), ..defaults() };
    let error = cli.sort_order().err().unwrap();
    assert!(matches!(&error, CliError::InvalidSortOrder(s) if s == "sideways"));
    assert_eq!(error.message(), "Error: Invalid sort order: sideways");
}

#[test]
fn output_format_is_parsed_in_any_case() {
    assert_eq!(defaults().output_format().ok(), Some(OutputFormat::Table));
    for (name, format) in [
        ("json", OutputFormat::Json),
        ("JSON", OutputFormat::Json),
        ("Long", OutputFormat::Long),
        ("tree", OutputFormat::Tree),
        ("TABLE", OutputFormat::Table),
    ] {
        let cli = CLI { format: name.to_string(), ..defaults() };
        assert_eq!(cli.output_format().ok(), Some(format));
        assert_eq!(OutputFormat::from_str(name), Some(format));
    }
    assert_eq!(OutputFormat::from_exact("tree"), Some(OutputFormat::Tree));
    assert_eq!(OutputFormat::from_exact("Tree"), None);
    assert_eq!(OutputFormat::from_str(""), None);
}

#[test]
fn invalid_format_is_reported() {
    let cli = CLI { format: "xml".to_string(), ..defaults() };
    let error = cli.output_format().err().unwrap();
    assert!(matches!(&error, CliError::InvalidFormat(s) if s == "xml"));
    assert_eq!(error.message(), "Error: Invalid format: xml");
}

#[test]
fn color_theme_follows_no_color() {
    assert!(defaults().color_theme().is_enabled());
    let cli = CLI { no_color: true, ..defaults() };
    assert!(!cli.color_theme().is_enabled());
}

#[test]
fn start_path_defaults_to_the_current_directory() {
    assert_eq!(defaults().start_path(), ".");
    let cli = CLI { path: Some("/var/log".to_string()), ..defaults() };
    assert_eq!(cli.start_path(), "/var/log");
}

#[test]
fn only_the_start_is_listed_without_recursion() {
    let cli = CLI { max_depth: Some(5), ..defaults() };
    assert!(cli.lists_level(0));
    assert!(!cli.lists_level(1));
}

#[test]
fn max_depth_counts_the_levels_below_the_start() {
    let unbounded = CLI { recursive: true, ..defaults() };
    assert!(unbounded.lists_level(0));
    assert!(unbounded.lists_level(1));
    assert!(unbounded.lists_level(usize::MAX));
    let two = CLI { recursive: true, max_depth: Some(2), ..defaults() };
    assert!(two.lists_level(0));
    assert!(two.lists_level(1));
    assert!(two.lists_level(2));
    assert!(!two.lists_level(3));
    let none = CLI { recursive: true, max_depth: Some(0), ..defaults() };
    assert!(none.lists_level(0));
    assert!(!none.lists_level(1));
}

#[test]
fn a_run_filters_and_sorts() {
    let cli = CLI { sort: "size".to_string(), order: "desc".to_string(), ..defaults() };
    let filter = cli.filter().ok().unwrap();
    let mut entries = filter_entries(listing(), &filter);
    sort_entries(&mut entries, cli.sort_field().ok().unwrap(), cli.sort_order().ok().unwrap());
    assert_eq!(names(&entries), vec!["a.RS", "b.txt", "notes.md", "src"]);
}

#[test]
fn test_no_args() {
    let cli = defaults();
    assert!(cli.filter().is_ok());
    assert!(cli.sort_field().is_ok());
    assert!(cli.sort_order().is_ok());
    assert!(cli.output_format().is_ok());
    assert_eq!(cli.start_path(), ".");
}

#[test]
fn test_formats() {
    let formats = ["table", "long", "tree", "json"];
    for format in formats {
        let cli = CLI { format: format.to_string(), ..defaults() };
        assert!(cli.output_format().is_ok());
    }
}

#[test]
fn test_human_readable() {
    let cli = CLI { human_readable: true, format: "tree".to_string(), ..defaults() };
    let entries = filter_entries(listing(), &cli.filter().ok().unwrap());
    let lines = render_tree(&entries, cli.human_readable);
    assert!(!lines.is_empty());
    for line in lines.iter() {
        assert!(line.suffix.contains("KB") || line.suffix.contains("B"));
    }
}

#[test]
fn test_no_color() {
    let cli = CLI { no_color: true, ..defaults() };
    let theme = cli.color_theme();
    assert!(!theme.is_enabled());
    assert_eq!(theme.get_color_for_path("src", true, Some(0o755)), None);
    assert!(!theme.should_be_bold("src", true, Some(0o755)));
}

#[test]
fn test_summary() {
    let cli = CLI { summary: true, ..defaults() };
    assert!(cli.summary);
    let entries = filter_entries(listing(), &cli.filter().ok().unwrap());
    let text = summary_lines(&summarize(&entries).unwrap()).join("\n");
    assert!(text.contains("Summary"));
    assert!(text.contains("Files:"));
    assert!(text.contains("Directories:"));
    assert!(text.contains("Total Size:"));
}
