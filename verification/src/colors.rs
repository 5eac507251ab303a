//! Which color and weight a name is shown in.

use vstd::prelude::*;
use crate::file_entry::{extension_of_path, path_extension};
use crate::text::same_text;

verus! {

/// The colors names are shown in.
#[derive(Debug, Clone, Copy, PartialEq, Eq, Structural)]
pub enum Color {
    Blue,
    Green,
    Red,
    Yellow,
    White,
    Magenta,
}

/// How a name is shown: in which color, if any, and whether in bold.
#[derive(Debug, Clone, Copy, PartialEq, Eq)]
pub struct TextStyle {
    pub color: Option<Color>,
    pub bold: bool,
}

/// The theme that names are colored by. A theme that is not enabled colors
/// nothing.
pub struct ColorTheme {
    enabled: bool,
}

impl View for ColorTheme {
    type V = bool;

    /// Whether the theme is enabled.
    closed spec fn view(&self) -> bool {
        self.enabled
    }
}

/// Whether a mode lets anyone execute the file.
pub open spec fn is_executable(mode: Option<u32>) -> bool {
    mode is Some && mode->0 & 0o111 != 0
}

/// Whether an extension is that of an archive.
pub open spec fn is_archive(ext: Seq<char>) -> bool {
    ext == "zip"@ || ext == "tar"@ || ext == "gz"@ || ext == "xz"@ || ext == "bz2"@ || ext
        == "7z"@
}

/// The color of a file by its extension: source code, configuration,
/// documents, images and archives have one.
pub open spec fn extension_color(ext: Seq<char>) -> Option<Color> {
    if ext == "rs"@ {
        Some(Color::Red)
    } else if ext == "py"@ || ext == "js"@ || ext == "ts"@ {
        Some(Color::Yellow)
    } else if ext == "json"@ || ext == "yaml"@ || ext == "yml"@ || ext == "toml"@ || ext
        == "ini"@ {
        Some(Color::Yellow)
    } else if ext == "md"@ || ext == "txt"@ || ext == "rst"@ || ext == "doc"@ || ext
        == "docx"@ {
        Some(Color::White)
    } else if ext == "jpg"@ || ext == "jpeg"@ || ext == "png"@ || ext == "gif"@ || ext
        == "bmp"@ {
        Some(Color::Magenta)
    } else if is_archive(ext) {
        Some(Color::Red)
    } else {
        None
    }
}

/// The color of a name: none without colors, blue for a directory, green
/// for an executable file, and else that of the extension.
pub open spec fn color_of(
    enabled: bool,
    is_dir: bool,
    mode: Option<u32>,
    extension: Option<Seq<char>>,
) -> Option<Color> {
    if !enabled {
        None
    } else if is_dir {
        Some(Color::Blue)
    } else if is_executable(mode) {
        Some(Color::Green)
    } else if extension is Some {
        extension_color(extension->0)
    } else {
        None
    }
}

/// Whether a name stands out: with colors, directories, executable files
/// and archives do.
pub open spec fn bold_of(
    enabled: bool,
    is_dir: bool,
    mode: Option<u32>,
    extension: Option<Seq<char>>,
) -> bool {
    enabled && (is_dir || is_executable(mode) || (extension is Some && is_archive(extension->0)))
}

/// How a name is shown: bold only where it has a color.
pub open spec fn style_of(
    enabled: bool,
    is_dir: bool,
    mode: Option<u32>,
    extension: Option<Seq<char>>,
) -> TextStyle {
    TextStyle {
        color: color_of(enabled, is_dir, mode, extension),
        bold: color_of(enabled, is_dir, mode, extension) is Some && bold_of(
            enabled,
            is_dir,
            mode,
            extension,
        ),
    }
}

fn archive_extension(ext: &str) -> (r: bool)
    ensures
        r == is_archive(ext@),
{
    same_text(ext, "zip") || same_text(ext, "tar") || same_text(ext, "gz") || same_text(ext, "xz")
        || same_text(ext, "bz2") || same_text(ext, "7z")
}

fn color_for_extension(ext: &str) -> (r: Option<Color>)
    ensures
        r == extension_color(ext@),
{
    if same_text(ext, "rs") {
        Some(Color::Red)
    } else if same_text(ext, "py") || same_text(ext, "js") || same_text(ext, "ts") {
        Some(Color::Yellow)
    } else if same_text(ext, "json") || same_text(ext, "yaml") || same_text(ext, "yml")
        || same_text(ext, "toml") || same_text(ext, "ini") {
        Some(Color::Yellow)
    } else if same_text(ext, "md") || same_text(ext, "txt") || same_text(ext, "rst") || same_text(
        ext,
        "doc",
    ) || same_text(ext, "docx") {
        Some(Color::White)
    } else if same_text(ext, "jpg") || same_text(ext, "jpeg") || same_text(ext, "png")
        || same_text(ext, "gif") || same_text(ext, "bmp") {
        Some(Color::Magenta)
    } else if archive_extension(ext) {
        Some(Color::Red)
    } else {
        None
    }
}

fn executable(mode: Option<u32>) -> (r: bool)
    ensures
        r == is_executable(mode),
{
    match mode {
        Some(m) => m & 0o111 != 0,
        None => false,
    }
}

impl ColorTheme {
    /// A theme that colors names, or one that does not.
    pub fn new(color_enabled: bool) -> (r: Self)
        ensures
            r@ == color_enabled,
    {
        ColorTheme { enabled: color_enabled }
    }

    /// Whether colors are enabled.
    pub fn is_enabled(&self) -> (r: bool)
        ensures
            r == self@,
    {
        self.enabled
    }

    /// The color for the name at `path`, given whether a directory stands
    /// there and the mode found there, if any could be read.
    pub fn get_color_for_path(&self, path: &str, is_dir: bool, mode: Option<u32>) -> (r: Option<
        Color,
    >)
        ensures
            r == color_of(self@, is_dir, mode, path_extension(path@)),
    {
        if !self.enabled {
            return None;
        }
        if is_dir {
            return Some(Color::Blue);
        }
        if executable(mode) {
            return Some(Color::Green);
        }
        match extension_of_path(path) {
            Some(ext) => color_for_extension(ext.as_str()),
            None => None,
        }
    }

    /// Whether the name at `path` is shown in bold.
    pub fn should_be_bold(&self, path: &str, is_dir: bool, mode: Option<u32>) -> (r: bool)
        ensures
            r == bold_of(self@, is_dir, mode, path_extension(path@)),
    {
        if !self.enabled {
            return false;
        }
        if is_dir {
            return true;
        }
        if executable(mode) {
            return true;
        }
        match extension_of_path(path) {
            Some(ext) => archive_extension(ext.as_str()),
            None => false,
        }
    }

    /// How the name at `path` is shown.
    pub fn style_for_path(&self, path: &str, is_dir: bool, mode: Option<u32>) -> (r: TextStyle)
        ensures
            r == style_of(self@, is_dir, mode, path_extension(path@)),
    {
        let color = self.get_color_for_path(path, is_dir, mode);
        let bold = color.is_some() && self.should_be_bold(path, is_dir, mode);
        TextStyle { color, bold }
    }
}

} // verus!
