pub mod cli;
pub mod colors;
pub mod file_entry;
pub mod filtering;
pub mod output;
pub mod size_utils;
pub mod sort_laws;
pub mod sorting;
pub mod text;
pub mod tree_laws;
pub mod tree_shape_laws;

pub use cli::CLI;
pub use colors::ColorTheme;
pub use file_entry::FileEntry;
pub use filtering::{filter_entries, FileFilter};
pub use output::render_tree;
pub use size_utils::HumanSize;
pub use sorting::{sort_entries, SortField, SortOrder};
