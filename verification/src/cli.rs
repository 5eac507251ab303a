//! The options of the command line and what they ask for.

use vstd::prelude::*;
use crate::colors::ColorTheme;
use crate::filtering::{
    glob_syntax_error, syntax_error_text, texts, FileFilter, FilterView, GlobSyntaxError,
};
use crate::sorting::{sort_field_named, sort_order_named, SortField, SortOrder};
use crate::text::{lowercase, lowercase_of, same_text};

verus! {

/// The options of one run.
#[derive(Debug)]
pub struct CLI {
    /// The directory to list; the current one where none is given.
    pub path: Option<String>,
    /// The output format: `table`, `long`, `tree` or `json`.
    pub format: String,
    /// Whether hidden entries are shown.
    pub all: bool,
    /// Whether subdirectories are listed too.
    pub recursive: bool,
    /// How many levels below the directory are listed at most.
    pub max_depth: Option<usize>,
    /// The sort field: `name`, `size`, `modified`, `created` or `type`.
    pub sort: String,
    /// The sort order: `asc` or `desc`.
    pub order: String,
    /// The extensions that files may have.
    pub extensions: Option<Vec<String>>,
    /// The least size in bytes.
    pub min_size: Option<u64>,
    /// The greatest size in bytes.
    pub max_size: Option<u64>,
    /// Whether sizes are shown in units.
    pub human_readable: bool,
    /// Whether colors are switched off.
    pub no_color: bool,
    /// Whether only directories are shown.
    pub dirs_only: bool,
    /// Whether only files are shown.
    pub files_only: bool,
    /// The glob pattern that names must match.
    pub glob: Option<String>,
    /// Whether a summary is shown.
    pub summary: bool,
}

/// The form a listing is shown in.
#[derive(Debug, Clone, Copy, PartialEq, Eq, Structural)]
pub enum OutputFormat {
    Json,
    Table,
    Long,
    Tree,
}

/// The output format that a lowercase name stands for.
pub open spec fn output_format_named(name: Seq<char>) -> Option<OutputFormat> {
    if name == "json"@ {
        Some(OutputFormat::Json)
    } else if name == "table"@ {
        Some(OutputFormat::Table)
    } else if name == "long"@ {
        Some(OutputFormat::Long)
    } else if name == "tree"@ {
        Some(OutputFormat::Tree)
    } else {
        None
    }
}

impl OutputFormat {
    /// The format with exactly this name: `json`, `table`, `long` or `tree`.
    pub fn from_exact(name: &str) -> (r: Option<Self>)
        ensures
            r == output_format_named(name@),
    {
        if same_text(name, "json") {
            Some(OutputFormat::Json)
        } else if same_text(name, "table") {
            Some(OutputFormat::Table)
        } else if same_text(name, "long") {
            Some(OutputFormat::Long)
        } else if same_text(name, "tree") {
            Some(OutputFormat::Tree)
        } else {
            None
        }
    }

    /// The format that `s` names, whatever its case.
    pub fn from_str(s: &str) -> (r: Option<Self>)
        ensures
            r == output_format_named(lowercase_of(s@)),
    {
        let lower = lowercase(s);
        OutputFormat::from_exact(lower.as_str())
    }
}

/// What is wrong with the options.
#[derive(Debug)]
pub enum CliError {
    /// The glob pattern has a syntax error.
    InvalidGlob(GlobSyntaxError),
    /// The sort field has no such name.
    InvalidSortField(String),
    /// The sort order has no such name.
    InvalidSortOrder(String),
    /// The output format has no such name.
    InvalidFormat(String),
}

impl CliError {
    /// The message shown for the error.
    pub open spec fn text(self) -> Seq<char> {
        match self {
            CliError::InvalidGlob(e) => "Error: Invalid glob pattern: "@ + syntax_error_text(
                e.pos,
                e.msg@,
            ),
            CliError::InvalidSortField(s) => "Error: Invalid sort field: "@ + s@,
            CliError::InvalidSortOrder(s) => "Error: Invalid sort order: "@ + s@,
            CliError::InvalidFormat(s) => "Error: Invalid format: "@ + s@,
        }
    }

    /// The message shown for the error.
    pub fn message(&self) -> (r: String)
        ensures
            r@ == self.text(),
    {
        match self {
            CliError::InvalidGlob(e) => {
                let mut out = String::from_str("Error: Invalid glob pattern: ");
                let detail = e.message();
                out.append(detail.as_str());
                out
            },
            CliError::InvalidSortField(s) => {
                let mut out = String::from_str("Error: Invalid sort field: ");
                out.append(s.as_str());
                out
            },
            CliError::InvalidSortOrder(s) => {
                let mut out = String::from_str("Error: Invalid sort order: ");
                out.append(s.as_str());
                out
            },
            CliError::InvalidFormat(s) => {
                let mut out = String::from_str("Error: Invalid format: ");
                out.append(s.as_str());
                out
            },
        }
    }
}

/// The view of an optional string.
pub open spec fn option_text(s: Option<String>) -> Option<Seq<char>> {
    match s {
        Some(t) => Some(t@),
        None => None,
    }
}

fn clone_texts(list: &Vec<String>) -> (r: Vec<String>)
    ensures
        texts(r@) == texts(list@),
{
    let mut out: Vec<String> = Vec::new();
    let mut i: usize = 0;
    while i < list.len()
        invariant
            i <= list@.len(),
            texts(out@) == texts(list@).take(i as int),
        decreases list@.len() - i,
    {
        let ghost before = out@;
        let item = list[i].clone();
        out.push(item);
        i = i + 1;
        assert(texts(out@) =~= texts(before).push(item@));
        assert(texts(list@).take(i as int) =~= texts(list@).take(i - 1).push(list@[i - 1]@));
    }
    assert(texts(list@).take(i as int) =~= texts(list@));
    out
}

impl CLI {
    /// The filter that the options ask for, but for the glob pattern:
    /// hidden entries as `all` says, the size bounds, the extensions in
    /// lowercase, and directories only, or else files only.
    pub open spec fn filter_without_glob(&self) -> FilterView {
        FilterView {
            extensions: match self.extensions {
                Some(exts) => Some(texts(exts@).map_values(|e: Seq<char>| lowercase_of(e))),
                None => None,
            },
            min_size: self.min_size,
            max_size: self.max_size,
            dirs_only: self.dirs_only,
            files_only: !self.dirs_only && self.files_only,
            glob: None,
            show_hidden: self.all,
        }
    }

    /// The filter that the options ask for.
    pub open spec fn wanted_filter(&self) -> FilterView {
        FilterView { glob: option_text(self.glob), ..self.filter_without_glob() }
    }

    /// Builds the filter that the options ask for. A glob pattern with a
    /// syntax error is refused.
    pub fn filter(&self) -> (r: Result<FileFilter, CliError>)
        ensures
            match r {
                Ok(f) => {
                    &&& f@ == self.wanted_filter()
                    &&& self.glob is Some ==> glob_syntax_error(self.glob->0@) is None
                },
                Err(e) => {
                    &&& self.glob is Some
                    &&& e is InvalidGlob
                    &&& glob_syntax_error(self.glob->0@) == Some((e->InvalidGlob_0.pos, e->InvalidGlob_0.msg@))
                },
            },
    {
        let filter = FileFilter::new().show_hidden(self.all).with_size_range(
            self.min_size,
            self.max_size,
        );
        let filter = match &self.extensions {
            Some(exts) => filter.with_extensions(clone_texts(exts)),
            None => filter,
        };
        let filter = if self.dirs_only {
            filter.dirs_only()
        } else if self.files_only {
            filter.files_only()
        } else {
            filter
        };
        assert(filter@ == self.filter_without_glob());
        match &self.glob {
            Some(pattern) => match filter.with_glob(pattern.as_str()) {
                Ok(f) => Ok(f),
                Err(e) => Err(CliError::InvalidGlob(e)),
            },
            None => Ok(filter),
        }
    }

    /// The sort field that the options name.
    pub fn sort_field(&self) -> (r: Result<SortField, CliError>)
        ensures
            match r {
                Ok(field) => sort_field_named(lowercase_of(self.sort@)) == Some(field),
                Err(e) => {
                    &&& sort_field_named(lowercase_of(self.sort@)) is None
                    &&& e is InvalidSortField
                    &&& e->InvalidSortField_0@ == self.sort@
                },
            },
    {
        match SortField::from_str(self.sort.as_str()) {
            Some(field) => Ok(field),
            None => Err(CliError::InvalidSortField(self.sort.clone())),
        }
    }

    /// The sort order that the options name.
    pub fn sort_order(&self) -> (r: Result<SortOrder, CliError>)
        ensures
            match r {
                Ok(order) => sort_order_named(lowercase_of(self.order@)) == Some(order),
                Err(e) => {
                    &&& sort_order_named(lowercase_of(self.order@)) is None
                    &&& e is InvalidSortOrder
                    &&& e->InvalidSortOrder_0@ == self.order@
                },
            },
    {
        match SortOrder::from_str(self.order.as_str()) {
            Some(order) => Ok(order),
            None => Err(CliError::InvalidSortOrder(self.order.clone())),
        }
    }

    /// The output format that the options name.
    pub fn output_format(&self) -> (r: Result<OutputFormat, CliError>)
        ensures
            match r {
                Ok(format) => output_format_named(lowercase_of(self.format@)) == Some(format),
                Err(e) => {
                    &&& output_format_named(lowercase_of(self.format@)) is None
                    &&& e is InvalidFormat
                    &&& e->InvalidFormat_0@ == self.format@
                },
            },
    {
        match OutputFormat::from_str(self.format.as_str()) {
            Some(format) => Ok(format),
            None => Err(CliError::InvalidFormat(self.format.clone())),
        }
    }

    /// The color theme: enabled unless colors are switched off.
    pub fn color_theme(&self) -> (r: ColorTheme)
        ensures
            r@ == !self.no_color,
    {
        ColorTheme::new(!self.no_color)
    }

    /// The directory to list: the one given, or `.`.
    pub fn start_path(&self) -> (r: String)
        ensures
            r@ == match self.path {
                Some(p) => p@,
                None => "."@,
            },
    {
        match &self.path {
            Some(p) => p.clone(),
            None => String::from_str("."),
        }
    }

    /// Whether the entries of a directory `level` levels below the start are
    /// listed. Those of the start itself always are; those further down
    /// only in a recursive run, and down to the level `max_depth` where one
    /// is given.
    pub fn lists_level(&self, level: usize) -> (r: bool)
        ensures
            r == (level == 0 || (self.recursive && (self.max_depth is Some ==> level
                <= self.max_depth->0))),
    {
        if level == 0 {
            return true;
        }
        if !self.recursive {
            return false;
        }
        match self.max_depth {
            Some(limit) => level <= limit,
            None => true,
        }
    }
}

} // verus!
