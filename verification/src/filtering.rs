//! Deciding which entries are shown: hidden files, kind, extension, size
//! and glob pattern, all of which must agree.

use vstd::prelude::*;
use glob::Pattern;
use glob::PatternError;
use crate::file_entry::{base_name, path_parts, split_path, EntryView, FileEntry, PathPart};
use crate::text::{lowercase, lowercase_of, push_decimal, decimal_digits, same_text, starts_with_char};

verus! {

/// `glob::Pattern`, a compiled pattern. Nothing of its inside is known
/// here; it is carried from where it is compiled to where it is matched.
#[verifier::external_type_specification]
#[verifier::external_body]
pub struct ExPattern(Pattern);

/// `glob::PatternError`, as the crate declares it: two public fields, the
/// position `pos` and the message `msg`.
#[verifier::external_type_specification]
pub struct ExPatternError(PatternError);

/// The text that a compiled pattern was made from: what `Pattern::as_str`
/// returns.
pub uninterp spec fn pattern_source(p: Pattern) -> Seq<char>;

/// What `glob::Pattern::new` finds wrong with a pattern: nothing, or the
/// position and the message of its error.
pub uninterp spec fn glob_syntax_error(pattern: Seq<char>) -> Option<(usize, Seq<char>)>;

/// Whether the pattern with the given source matches a text, by
/// `glob::Pattern::matches`.
pub uninterp spec fn glob_matches(source: Seq<char>, text: Seq<char>) -> bool;

/// Compiles a pattern with `glob::Pattern::new`. Whether that succeeds, and
/// with what error it fails, depends on the pattern's text alone. A compiled
/// pattern keeps the text it was made from.
#[verifier::external_body]
fn compile_pattern(pattern: &str) -> (r: Result<Pattern, PatternError>)
    ensures
        match r {
            Ok(p) => glob_syntax_error(pattern@) is None && pattern_source(p) == pattern@,
            Err(e) => glob_syntax_error(pattern@) == Some((e.pos, e.msg@)),
        },
{
    Pattern::new(pattern)
}

/// Matches a text with `glob::Pattern::matches`. The outcome depends on the
/// pattern's source and the text alone.
#[verifier::external_body]
fn pattern_matches(p: &Pattern, text: &str) -> (hit: bool)
    ensures
        hit == glob_matches(pattern_source(*p), text@),
{
    p.matches(text)
}

/// Why a glob pattern was refused.
#[derive(Debug)]
pub struct GlobSyntaxError {
    /// About where in the pattern the error lies, in characters.
    pub pos: usize,
    /// What is wrong there.
    pub msg: String,
}

/// The text of a pattern error.
pub open spec fn syntax_error_text(pos: usize, msg: Seq<char>) -> Seq<char> {
    seq![
        'P',
        'a',
        't',
        't',
        'e',
        'r',
        'n',
        ' ',
        's',
        'y',
        'n',
        't',
        'a',
        'x',
        ' ',
        'e',
        'r',
        'r',
        'o',
        'r',
        ' ',
        'n',
        'e',
        'a',
        'r',
        ' ',
        'p',
        'o',
        's',
        'i',
        't',
        'i',
        'o',
        'n',
        ' ',
    ] + decimal_digits(pos as nat) + seq![':', ' '] + msg
}

impl GlobSyntaxError {
    /// The error as one line of text.
    pub fn message(&self) -> (r: String)
        ensures
            r@ == syntax_error_text(self.pos, self.msg@),
    {
        proof {
            reveal_strlit("Pattern syntax error near position ");
            reveal_strlit(": ");
        }
        let mut out = String::from_str("Pattern syntax error near position ");
        push_decimal(&mut out, self.pos as u64);
        out.append(": ");
        out.append(self.msg.as_str());
        assert(out@ =~= syntax_error_text(self.pos, self.msg@));
        out
    }
}

/// The views of a sequence of strings.
pub open spec fn texts(v: Seq<String>) -> Seq<Seq<char>> {
    v.map_values(|s: String| s@)
}

/// The view of an optional string slice.
pub open spec fn str_view(s: Option<&str>) -> Option<Seq<char>> {
    match s {
        Some(t) => Some(t@),
        None => None,
    }
}

/// The lowercase form of an optional string.
pub open spec fn lowered(s: Option<Seq<char>>) -> Option<Seq<char>> {
    match s {
        Some(t) => Some(lowercase_of(t)),
        None => None,
    }
}

/// Whether an entry is hidden: its name begins with a dot.
pub open spec fn hidden(e: EntryView) -> bool {
    e.name().len() > 0 && e.name()[0] == '.'
}

/// The criteria entries are filtered by.
pub struct FileFilter {
    extensions: Option<Vec<String>>,
    min_size: Option<u64>,
    max_size: Option<u64>,
    dirs_only: bool,
    files_only: bool,
    glob_pattern: Option<Pattern>,
    show_hidden: bool,
}

/// What a `FileFilter` stands for.
pub ghost struct FilterView {
    /// The extensions that files may have, in lowercase, where the filter
    /// names any.
    pub extensions: Option<Seq<Seq<char>>>,
    pub min_size: Option<u64>,
    pub max_size: Option<u64>,
    pub dirs_only: bool,
    pub files_only: bool,
    /// The source of the glob pattern that names must match, where the
    /// filter has one.
    pub glob: Option<Seq<char>>,
    pub show_hidden: bool,
}

impl FilterView {
    /// Hidden entries pass only where the filter shows them.
    pub open spec fn visibility_ok(self, e: EntryView) -> bool {
        self.show_hidden || !hidden(e)
    }

    /// The restriction to directories, or to files.
    pub open spec fn kind_ok(self, e: EntryView) -> bool {
        (self.dirs_only ==> e.is_dir) && (self.files_only ==> !e.is_dir)
    }

    /// A file passes if `extension`, its extension in lowercase, is one of
    /// the filter's; a file without extension does not. Directories pass.
    pub open spec fn extension_ok(self, e: EntryView, extension: Option<Seq<char>>) -> bool {
        match self.extensions {
            Some(allowed) => e.is_dir || (extension is Some && allowed.contains(extension->0)),
            None => true,
        }
    }

    /// The size lies within the bounds that the filter has.
    pub open spec fn size_ok(self, e: EntryView) -> bool {
        (self.min_size is Some ==> e.size >= self.min_size->0) && (self.max_size is Some ==> e.size
            <= self.max_size->0)
    }

    /// Whether the filter lets an entry pass, given its extension in
    /// lowercase and whether its name matches the glob pattern. Every
    /// criterion that the filter has must hold.
    pub open spec fn accepts_given(
        self,
        e: EntryView,
        extension: Option<Seq<char>>,
        glob_hit: bool,
    ) -> bool {
        &&& self.visibility_ok(e)
        &&& self.kind_ok(e)
        &&& self.extension_ok(e, extension)
        &&& self.size_ok(e)
        &&& (self.glob is Some ==> glob_hit)
    }

    /// Whether the entry's name matches the glob pattern, where the filter
    /// has one.
    pub open spec fn glob_hit(self, e: EntryView) -> bool {
        self.glob is Some && glob_matches(self.glob->0, e.name())
    }

    /// Whether the filter lets an entry pass.
    pub open spec fn accepts(self, e: EntryView) -> bool {
        self.accepts_given(e, lowered(e.extension()), self.glob_hit(e))
    }
}

impl View for FileFilter {
    type V = FilterView;

    closed spec fn view(&self) -> FilterView {
        FilterView {
            extensions: match self.extensions {
                Some(v) => Some(texts(v@)),
                None => None,
            },
            min_size: self.min_size,
            max_size: self.max_size,
            dirs_only: self.dirs_only,
            files_only: self.files_only,
            glob: match self.glob_pattern {
                Some(p) => Some(pattern_source(p)),
                None => None,
            },
            show_hidden: self.show_hidden,
        }
    }
}

/// Whether `wanted` is among `list`.
fn contains_text(list: &Vec<String>, wanted: &str) -> (r: bool)
    ensures
        r == texts(list@).contains(wanted@),
{
    let mut i: usize = 0;
    while i < list.len()
        invariant
            i <= list.len(),
            forall|k: int| 0 <= k < i ==> texts(list@)[k] != wanted@,
        decreases list.len() - i,
    {
        if same_text(list[i].as_str(), wanted) {
            assert(texts(list@)[i as int] == wanted@);
            return true;
        }
        i = i + 1;
    }
    false
}

impl FileFilter {
    /// The filter that lets everything pass but hidden entries.
    pub fn new() -> (r: Self)
        ensures
            r@ == (FilterView {
                extensions: None,
                min_size: None,
                max_size: None,
                dirs_only: false,
                files_only: false,
                glob: None,
                show_hidden: false,
            }),
    {
        FileFilter {
            extensions: None,
            min_size: None,
            max_size: None,
            dirs_only: false,
            files_only: false,
            glob_pattern: None,
            show_hidden: false,
        }
    }

    /// Lets only files with one of these extensions pass. The extensions
    /// are compared in lowercase.
    pub fn with_extensions(self, exts: Vec<String>) -> (r: Self)
        ensures
            r@ == (FilterView {
                extensions: Some(texts(exts@).map_values(|e: Seq<char>| lowercase_of(e))),
                ..self@
            }),
    {
        let mut lower: Vec<String> = Vec::new();
        let mut i: usize = 0;
        while i < exts.len()
            invariant
                i <= exts.len(),
                texts(lower@) == texts(exts@).map_values(|e: Seq<char>| lowercase_of(e)).take(
                    i as int,
                ),
            decreases exts.len() - i,
        {
            let ghost before = lower@;
            let item = lowercase(exts[i].as_str());
            lower.push(item);
            i = i + 1;
            assert(texts(lower@) =~= texts(before).push(item@));
            assert(texts(lower@) =~= texts(exts@).map_values(|e: Seq<char>| lowercase_of(e)).take(
                i as int,
            ));
        }
        assert(texts(lower@) =~= texts(exts@).map_values(|e: Seq<char>| lowercase_of(e)));
        FileFilter {
            extensions: Some(lower),
            min_size: self.min_size,
            max_size: self.max_size,
            dirs_only: self.dirs_only,
            files_only: self.files_only,
            glob_pattern: self.glob_pattern,
            show_hidden: self.show_hidden,
        }
    }

    /// Sets the bounds on the size. A side without bound is open.
    pub fn with_size_range(self, min: Option<u64>, max: Option<u64>) -> (r: Self)
        ensures
            r@ == (FilterView { min_size: min, max_size: max, ..self@ }),
    {
        FileFilter {
            extensions: self.extensions,
            min_size: min,
            max_size: max,
            dirs_only: self.dirs_only,
            files_only: self.files_only,
            glob_pattern: self.glob_pattern,
            show_hidden: self.show_hidden,
        }
    }

    /// Lets only directories pass. A restriction to files is lifted.
    pub fn dirs_only(self) -> (r: Self)
        ensures
            r@ == (FilterView { dirs_only: true, files_only: false, ..self@ }),
    {
        FileFilter {
            extensions: self.extensions,
            min_size: self.min_size,
            max_size: self.max_size,
            dirs_only: true,
            files_only: false,
            glob_pattern: self.glob_pattern,
            show_hidden: self.show_hidden,
        }
    }

    /// Lets only files pass. A restriction to directories is lifted.
    pub fn files_only(self) -> (r: Self)
        ensures
            r@ == (FilterView { files_only: true, dirs_only: false, ..self@ }),
    {
        FileFilter {
            extensions: self.extensions,
            min_size: self.min_size,
            max_size: self.max_size,
            dirs_only: false,
            files_only: true,
            glob_pattern: self.glob_pattern,
            show_hidden: self.show_hidden,
        }
    }

    /// Lets only entries pass whose name matches `pattern`. A pattern with
    /// a syntax error is refused, and the error handed back.
    pub fn with_glob(self, pattern: &str) -> (r: Result<Self, GlobSyntaxError>)
        ensures
            match r {
                Ok(f) => glob_syntax_error(pattern@) is None && f@ == (FilterView {
                    glob: Some(pattern@),
                    ..self@
                }),
                Err(e) => glob_syntax_error(pattern@) == Some((e.pos, e.msg@)),
            },
    {
        match compile_pattern(pattern) {
            Ok(p) => Ok(
                FileFilter {
                    extensions: self.extensions,
                    min_size: self.min_size,
                    max_size: self.max_size,
                    dirs_only: self.dirs_only,
                    files_only: self.files_only,
                    glob_pattern: Some(p),
                    show_hidden: self.show_hidden,
                },
            ),
            Err(e) => Err(GlobSyntaxError { pos: e.pos, msg: String::from_str(e.msg) }),
        }
    }

    /// Shows hidden entries, or hides them.
    pub fn show_hidden(self, show: bool) -> (r: Self)
        ensures
            r@ == (FilterView { show_hidden: show, ..self@ }),
    {
        FileFilter {
            extensions: self.extensions,
            min_size: self.min_size,
            max_size: self.max_size,
            dirs_only: self.dirs_only,
            files_only: self.files_only,
            glob_pattern: self.glob_pattern,
            show_hidden: show,
        }
    }

    /// Whether the filter lets `entry` pass, given the entry's extension in
    /// lowercase and whether its name matches the glob pattern.
    pub fn matches_given(
        &self,
        entry: &FileEntry,
        lowered_extension: Option<&str>,
        glob_hit: bool,
    ) -> (r: bool)
        ensures
            r == self@.accepts_given(entry@, str_view(lowered_extension), glob_hit),
    {
        if !self.show_hidden && starts_with_char(entry.name(), '.') {
            return false;
        }
        if self.dirs_only && !entry.is_dir() {
            return false;
        }
        if self.files_only && entry.is_dir() {
            return false;
        }
        if let Some(allowed) = &self.extensions {
            if !entry.is_dir() {
                match lowered_extension {
                    Some(ext) => {
                        if !contains_text(allowed, ext) {
                            return false;
                        }
                    },
                    None => {
                        return false;
                    },
                }
            }
        }
        if let Some(min) = self.min_size {
            if entry.size() < min {
                return false;
            }
        }
        if let Some(max) = self.max_size {
            if entry.size() > max {
                return false;
            }
        }
        if self.glob_pattern.is_some() && !glob_hit {
            return false;
        }
        true
    }

    /// Whether the filter lets `entry` pass: every criterion that it has
    /// must hold.
    pub fn matches(&self, entry: &FileEntry) -> (r: bool)
        ensures
            r == self@.accepts(entry@),
    {
        let extension = match entry.extension() {
            Some(ext) => Some(lowercase(ext)),
            None => None,
        };
        let lowered_extension = match &extension {
            Some(ext) => Some(ext.as_str()),
            None => None,
        };
        let glob_hit = match &self.glob_pattern {
            Some(p) => pattern_matches(p, entry.name()),
            None => false,
        };
        self.matches_given(entry, lowered_extension, glob_hit)
    }
}

/// Whether the file name of `path` begins with a dot.
pub fn is_hidden(path: &str) -> (r: bool)
    ensures
        r == (base_name(path_parts(path@)).len() > 0 && base_name(path_parts(path@))[0] == '.'),
{
    let parts = split_path(path);
    if parts.len() == 0 {
        return false;
    }
    match &parts[parts.len() - 1] {
        PathPart::Normal(name) => starts_with_char(name.as_str(), '.'),
        _ => false,
    }
}

/// Whether `idx` picks positions of a sequence of length `n` in rising
/// order.
pub open spec fn is_rising(idx: Seq<int>, n: nat) -> bool {
    &&& forall|k: int| 0 <= k < idx.len() ==> 0 <= #[trigger] idx[k] < n
    &&& forall|k: int, l: int| 0 <= k < l < idx.len() ==> idx[k] < idx[l]
}

/// The entries that `filter` lets pass, in the order in which they came.
pub fn filter_entries(entries: Vec<FileEntry>, filter: &FileFilter) -> (kept: Vec<FileEntry>)
    ensures
        kept@ == entries@.filter(|e: FileEntry| filter@.accepts(e@)),
        forall|k: int| 0 <= k < kept@.len() ==> filter@.accepts(#[trigger] kept@[k]@),
        exists|idx: Seq<int>|
            idx.len() == kept@.len() && is_rising(idx, entries@.len()) && forall|k: int|
                0 <= k < kept@.len() ==> kept@[k] == entries@[#[trigger] idx[k]],
{
    let ghost src = entries@;
    let ghost pred = |e: FileEntry| filter@.accepts(e@);
    let ghost mut idx: Seq<int> = Seq::empty();
    let mut kept: Vec<FileEntry> = Vec::new();
    proof {
        reveal(Seq::filter);
    }
    for entry in it: entries
        invariant
            it.seq() == src,
            kept@ == src.take(it.index() as int).filter(pred),
            pred == (|e: FileEntry| filter@.accepts(e@)),
            idx.len() == kept@.len(),
            is_rising(idx, it.index() as nat),
            forall|k: int| 0 <= k < kept@.len() ==> kept@[k] == src[#[trigger] idx[k]],
            forall|k: int| 0 <= k < kept@.len() ==> filter@.accepts(#[trigger] kept@[k]@),
    {
        let ghost i = it.index() as int;
        proof {
            reveal(Seq::filter);
            let upto = src.take(i + 1);
            assert(upto.drop_last() =~= src.take(i));
            assert(upto.last() == entry);
            assert(upto.filter(pred) == if pred(upto.last()) {
                upto.drop_last().filter(pred).push(upto.last())
            } else {
                upto.drop_last().filter(pred)
            });
        }
        if filter.matches(&entry) {
            kept.push(entry);
            proof {
                idx = idx.push(i);
            }
        }
    }
    proof {
        assert(src.take(src.len() as int) =~= src);
        assert(is_rising(idx, src.len()));
    }
    kept
}

} // verus!
