//! The record kept for one file or directory, and the path model the rest
//! of the library reasons with.

use vstd::prelude::*;
use vstd::std_specs::iter::IteratorSpec;

verus! {

/// A point in time: whole seconds since the Unix epoch and the nanoseconds
/// past them. Two points are ordered by seconds first.
#[derive(Debug, Clone, Copy, PartialEq, Eq, Structural)]
pub struct Timestamp {
    pub secs: i64,
    pub nanos: u32,
}

/// One component of a path.
#[derive(Debug)]
pub enum PathPart {
    /// A drive or share prefix, on systems that have them.
    Prefix(String),
    /// The root directory.
    Root,
    /// A reference to the current directory, `.`.
    Current,
    /// A reference to the parent directory, `..`.
    Parent,
    /// An ordinary name.
    Normal(String),
}

/// What a `PathPart` stands for.
pub ghost enum PartView {
    Prefix(Seq<char>),
    Root,
    Current,
    Parent,
    Normal(Seq<char>),
}

impl View for PathPart {
    type V = PartView;

    open spec fn view(&self) -> PartView {
        match self {
            PathPart::Prefix(s) => PartView::Prefix(s@),
            PathPart::Root => PartView::Root,
            PathPart::Current => PartView::Current,
            PathPart::Parent => PartView::Parent,
            PathPart::Normal(s) => PartView::Normal(s@),
        }
    }
}

impl Clone for PathPart {
    fn clone(&self) -> (r: Self)
        ensures
            r@ == self@,
    {
        match self {
            PathPart::Prefix(s) => PathPart::Prefix(s.clone()),
            PathPart::Root => PathPart::Root,
            PathPart::Current => PathPart::Current,
            PathPart::Parent => PathPart::Parent,
            PathPart::Normal(s) => PathPart::Normal(s.clone()),
        }
    }
}

/// The views of a sequence of components.
pub open spec fn parts_view(parts: Seq<PathPart>) -> Seq<PartView> {
    parts.map_values(|p: PathPart| p@)
}

/// The components of a path, as `std::path::Path::components` yields them.
/// Two paths are the same path exactly when their components are equal.
pub uninterp spec fn path_parts(path: Seq<char>) -> Seq<PartView>;

/// Splits `path` with `std::path::Path::components` and hands each component
/// on unchanged. The components are a function of the characters of `path`
/// alone; nothing else is claimed of them.
#[verifier::external_body]
pub(crate) fn split_path(path: &str) -> (parts: Vec<PathPart>)
    ensures
        parts_view(parts@) == path_parts(path@),
{
    std::path::Path::new(path).components().map(
        |c| match c {
            std::path::Component::Prefix(p) => PathPart::Prefix(
                p.as_os_str().to_string_lossy().into_owned(),
            ),
            std::path::Component::RootDir => PathPart::Root,
            std::path::Component::CurDir => PathPart::Current,
            std::path::Component::ParentDir => PathPart::Parent,
            std::path::Component::Normal(n) => PathPart::Normal(n.to_string_lossy().into_owned()),
        },
    ).collect()
}

/// The file name of a path: its last component, if that is an ordinary name.
pub open spec fn file_name_of(parts: Seq<PartView>) -> Option<Seq<char>> {
    if parts.len() > 0 && parts.last() is Normal {
        Some(parts.last()->Normal_0)
    } else {
        None
    }
}

/// The file name of a path, or the empty string where it has none.
pub open spec fn base_name(parts: Seq<PartView>) -> Seq<char> {
    match file_name_of(parts) {
        Some(name) => name,
        None => Seq::empty(),
    }
}

/// The path without its last component. A path that is empty, or ends in
/// a root or a prefix, has no parent.
pub open spec fn parent_of(parts: Seq<PartView>) -> Option<Seq<PartView>> {
    if parts.len() > 0 && !(parts.last() is Root) && !(parts.last() is Prefix) {
        Some(parts.drop_last())
    } else {
        None
    }
}

/// The position of the last `.` in `name`, or -1 where it has none.
pub open spec fn last_dot(name: Seq<char>) -> int
    decreases name.len(),
{
    if name.len() == 0 {
        -1
    } else if name.last() == '.' {
        name.len() - 1
    } else {
        last_dot(name.drop_last())
    }
}

/// The extension of a file name: what follows its last `.`, unless that `.`
/// is the first character or there is none.
pub open spec fn extension_of(name: Seq<char>) -> Option<Seq<char>> {
    if last_dot(name) > 0 {
        Some(name.skip(last_dot(name) + 1))
    } else {
        None
    }
}

/// The symbol shown for one permission bit.
pub open spec fn mode_char(mode: u32, mask: u32, symbol: char) -> char {
    if mode & mask != 0 {
        symbol
    } else {
        '-'
    }
}

/// The ten-character form of a mode: the kind of entry, and read, write and
/// execute for owner, group and others.
pub open spec fn permission_chars(is_dir: bool, mode: u32) -> Seq<char> {
    seq![
        if is_dir { 'd' } else { '-' },
        mode_char(mode, 0o400, 'r'),
        mode_char(mode, 0o200, 'w'),
        mode_char(mode, 0o100, 'x'),
        mode_char(mode, 0o040, 'r'),
        mode_char(mode, 0o020, 'w'),
        mode_char(mode, 0o010, 'x'),
        mode_char(mode, 0o004, 'r'),
        mode_char(mode, 0o002, 'w'),
        mode_char(mode, 0o001, 'x'),
    ]
}

/// What is known of a file system object besides its path.
#[derive(Debug)]
pub struct EntryMetadata {
    pub is_dir: bool,
    /// The length in bytes that the file system reports.
    pub size: u64,
    /// The time of the last change, where the file system reports one.
    pub modified: Option<Timestamp>,
    /// The time of creation, where the file system reports one.
    pub created: Option<Timestamp>,
    /// The raw mode bits.
    pub mode: u32,
    /// The owner's name, where it could be resolved.
    pub owner: Option<String>,
    /// The group's name, where it could be resolved.
    pub group: Option<String>,
}

/// The view of an optional string.
pub open spec fn text_view(s: Option<String>) -> Option<Seq<char>> {
    match s {
        Some(t) => Some(t@),
        None => None,
    }
}

impl Clone for EntryMetadata {
    fn clone(&self) -> (r: Self)
        ensures
            r.is_dir == self.is_dir,
            r.size == self.size,
            r.modified == self.modified,
            r.created == self.created,
            r.mode == self.mode,
            text_view(r.owner) == text_view(self.owner),
            text_view(r.group) == text_view(self.group),
    {
        EntryMetadata {
            is_dir: self.is_dir,
            size: self.size,
            modified: self.modified,
            created: self.created,
            mode: self.mode,
            owner: clone_text(&self.owner),
            group: clone_text(&self.group),
        }
    }
}

/// One file or directory with the metadata captured for it.
#[derive(Debug)]
pub struct FileEntry {
    name: String,
    path: String,
    parts: Vec<PathPart>,
    is_dir: bool,
    size: u64,
    modified: Timestamp,
    created: Option<Timestamp>,
    permissions: u32,
    owner: Option<String>,
    group: Option<String>,
}

/// What a `FileEntry` stands for. Name, extension and parent are not stored:
/// they follow from the path.
pub ghost struct EntryView {
    pub path: Seq<char>,
    pub is_dir: bool,
    pub size: u64,
    pub modified: Timestamp,
    pub created: Option<Timestamp>,
    pub permissions: u32,
    pub owner: Option<Seq<char>>,
    pub group: Option<Seq<char>>,
}

impl EntryView {
    /// The components of the entry's path.
    pub open spec fn parts(self) -> Seq<PartView> {
        path_parts(self.path)
    }

    /// The base name: the path's file name, empty where it has none.
    pub open spec fn name(self) -> Seq<char> {
        base_name(self.parts())
    }

    /// The extension of the path's file name.
    pub open spec fn extension(self) -> Option<Seq<char>> {
        path_extension(self.path)
    }

    /// The components of the parent path.
    pub open spec fn parent(self) -> Option<Seq<PartView>> {
        parent_of(self.parts())
    }

    /// The mode in its ten-character form.
    pub open spec fn permission_text(self) -> Seq<char> {
        permission_chars(self.is_dir, self.permissions)
    }
}

impl View for FileEntry {
    type V = EntryView;

    closed spec fn view(&self) -> EntryView {
        EntryView {
            path: self.path@,
            is_dir: self.is_dir,
            size: self.size,
            modified: self.modified,
            created: self.created,
            permissions: self.permissions,
            owner: text_view(self.owner),
            group: text_view(self.group),
        }
    }
}

/// Reads the clock with `chrono::Local::now`. Nothing is claimed of the
/// result: two calls may differ.
#[verifier::external_body]
fn current_time() -> Timestamp {
    let now = chrono::Local::now();
    Timestamp { secs: now.timestamp(), nanos: now.timestamp_subsec_nanos() }
}

fn name_from_parts(parts: &Vec<PathPart>) -> (name: String)
    ensures
        name@ == base_name(parts_view(parts@)),
{
    if parts.len() == 0 {
        return String::new();
    }
    match &parts[parts.len() - 1] {
        PathPart::Normal(n) => n.clone(),
        _ => String::new(),
    }
}

fn clone_parts(parts: &Vec<PathPart>) -> (r: Vec<PathPart>)
    ensures
        parts_view(r@) == parts_view(parts@),
{
    let mut out: Vec<PathPart> = Vec::new();
    let mut i: usize = 0;
    while i < parts.len()
        invariant
            i <= parts.len(),
            parts_view(out@) == parts_view(parts@).take(i as int),
        decreases parts.len() - i,
    {
        let ghost before = out@;
        let part = parts[i].clone();
        out.push(part);
        i = i + 1;
        assert(parts_view(out@) =~= parts_view(before).push(part@));
        assert(parts_view(parts@).take(i as int) =~= parts_view(parts@).take(i - 1).push(
            parts@[i - 1]@,
        ));
    }
    assert(parts_view(parts@).take(i as int) == parts_view(parts@));
    out
}

fn clone_text(s: &Option<String>) -> (r: Option<String>)
    ensures
        text_view(r) == text_view(*s),
{
    match s {
        Some(t) => Some(t.clone()),
        None => None,
    }
}

/// The character position of the last `.` in `name`, and the length of `name`
/// in characters.
fn find_last_dot(name: &str) -> (r: (Option<usize>, usize))
    ensures
        r.1 == name@.len(),
        match r.0 {
            Some(i) => last_dot(name@) == i && i < name@.len(),
            None => last_dot(name@) == -1,
        },
{
    let len = name.unicode_len();
    let mut it = name.chars();
    let mut found: Option<usize> = None;
    let mut k: usize = 0;
    loop
        invariant
            0 <= k <= name@.len(),
            len == name@.len(),
            it.remaining() == name@.skip(k as int),
            it.obeys_prophetic_iter_laws(),
            match found {
                Some(i) => last_dot(name@.take(k as int)) == i && i < k,
                None => last_dot(name@.take(k as int)) == -1,
            },
        decreases name@.len() - k,
    {
        match it.next() {
            None => {
                assert(name@.take(k as int) == name@);
                return (found, len);
            },
            Some(c) => {
                proof {
                    assert(name@.take(k + 1).drop_last() == name@.take(k as int));
                    assert(name@.take(k + 1).last() == c);
                    assert(name@.skip(k as int).drop_first() == name@.skip(k + 1));
                }
                if c == '.' {
                    found = Some(k);
                }
                k = k + 1;
            },
        }
    }
}

/// The extension of a file name, borrowed from it.
pub fn extension_of_name(name: &str) -> (r: Option<&str>)
    ensures
        match r {
            Some(ext) => extension_of(name@) == Some(ext@),
            None => extension_of(name@) is None,
        },
{
    let (dot, len) = find_last_dot(name);
    match dot {
        Some(i) => {
            if i > 0 {
                let ext = name.substring_char(i + 1, len);
                assert(ext@ =~= name@.skip(i + 1));
                Some(ext)
            } else {
                None
            }
        },
        None => None,
    }
}

/// The extension of a path: that of its file name, where it has one.
pub open spec fn path_extension(path: Seq<char>) -> Option<Seq<char>> {
    match file_name_of(path_parts(path)) {
        Some(name) => extension_of(name),
        None => None,
    }
}

/// The extension of `path`, without its dot.
pub fn extension_of_path(path: &str) -> (r: Option<String>)
    ensures
        text_view(r) == path_extension(path@),
{
    let parts = split_path(path);
    if parts.len() == 0 {
        return None;
    }
    match &parts[parts.len() - 1] {
        PathPart::Normal(name) => match extension_of_name(name.as_str()) {
            Some(ext) => Some(String::from_str(ext)),
            None => None,
        },
        _ => None,
    }
}

/// Whether two components are the same.
pub fn same_part(a: &PathPart, b: &PathPart) -> (r: bool)
    ensures
        r == (a@ == b@),
{
    match (a, b) {
        (PathPart::Prefix(x), PathPart::Prefix(y)) => *x == *y,
        (PathPart::Root, PathPart::Root) => true,
        (PathPart::Current, PathPart::Current) => true,
        (PathPart::Parent, PathPart::Parent) => true,
        (PathPart::Normal(x), PathPart::Normal(y)) => *x == *y,
        _ => false,
    }
}

/// Whether the first `n` components of two paths are the same.
fn same_leading_parts(a: &Vec<PathPart>, b: &Vec<PathPart>, n: usize) -> (r: bool)
    requires
        n <= a@.len(),
        n <= b@.len(),
    ensures
        r == (parts_view(a@).take(n as int) == parts_view(b@).take(n as int)),
{
    let mut i: usize = 0;
    while i < n
        invariant
            i <= n,
            n <= a@.len(),
            n <= b@.len(),
            parts_view(a@).take(i as int) == parts_view(b@).take(i as int),
        decreases n - i,
    {
        if !same_part(&a[i], &b[i]) {
            assert(parts_view(a@).take(n as int)[i as int] != parts_view(b@).take(n as int)[i as int]);
            return false;
        }
        i = i + 1;
        assert(parts_view(a@).take(i as int) =~= parts_view(a@).take(i - 1).push(a@[i - 1]@));
        assert(parts_view(b@).take(i as int) =~= parts_view(b@).take(i - 1).push(b@[i - 1]@));
    }
    true
}

/// Whether two paths are the same path: whether their components are.
pub fn same_parts(a: &Vec<PathPart>, b: &Vec<PathPart>) -> (r: bool)
    ensures
        r == (parts_view(a@) == parts_view(b@)),
{
    if a.len() != b.len() {
        return false;
    }
    let r = same_leading_parts(a, b, a.len());
    proof {
        assert(parts_view(a@).take(a@.len() as int) =~= parts_view(a@));
        assert(parts_view(b@).take(a@.len() as int) =~= parts_view(b@));
    }
    r
}

/// Whether `parent` is the parent path of `child`.
pub fn is_parent_of(parent: &Vec<PathPart>, child: &Vec<PathPart>) -> (r: bool)
    ensures
        r == (parent_of(parts_view(child@)) == Some(parts_view(parent@))),
{
    let n = child.len();
    if n == 0 || n - 1 != parent.len() {
        proof {
            if n > 0 {
                assert(parts_view(child@).drop_last().len() == n - 1);
                assert(parts_view(parent@).len() == parent@.len());
            }
        }
        return false;
    }
    match &child[n - 1] {
        PathPart::Root => {
            return false;
        },
        PathPart::Prefix(_) => {
            return false;
        },
        _ => {},
    }
    let r = same_leading_parts(parent, child, n - 1);
    proof {
        assert(parts_view(parent@).take(n - 1) =~= parts_view(parent@));
        assert(parts_view(child@).take(n - 1) =~= parts_view(child@).drop_last());
    }
    r
}

/// The views of a sequence of entries.
pub open spec fn views(entries: Seq<FileEntry>) -> Seq<EntryView> {
    entries.map_values(|e: FileEntry| e@)
}

/// The paths of a sequence of entries, each as its components.
pub open spec fn paths(es: Seq<EntryView>) -> Seq<Seq<PartView>> {
    es.map_values(|e: EntryView| e.parts())
}

impl Clone for FileEntry {
    fn clone(&self) -> (r: Self)
        ensures
            r@ == self@,
    {
        proof {
            use_type_invariant(self);
        }
        FileEntry {
            name: self.name.clone(),
            path: self.path.clone(),
            parts: clone_parts(&self.parts),
            is_dir: self.is_dir,
            size: self.size,
            modified: self.modified,
            created: self.created,
            permissions: self.permissions,
            owner: clone_text(&self.owner),
            group: clone_text(&self.group),
        }
    }
}

impl FileEntry {
    #[verifier::type_invariant]
    closed spec fn well_formed(&self) -> bool {
        &&& parts_view(self.parts@) == path_parts(self.path@)
        &&& self.name@ == base_name(path_parts(self.path@))
    }

    /// An entry for `path` with the given times and no mode, owner or group.
    pub fn with_times(
        path: &str,
        is_dir: bool,
        size: u64,
        modified: Timestamp,
        created: Option<Timestamp>,
    ) -> (entry: Self)
        ensures
            entry@ == (EntryView {
                path: path@,
                is_dir,
                size,
                modified,
                created,
                permissions: 0,
                owner: None,
                group: None,
            }),
    {
        let parts = split_path(path);
        let name = name_from_parts(&parts);
        FileEntry {
            name,
            path: String::from_str(path),
            parts,
            is_dir,
            size,
            modified,
            created,
            permissions: 0,
            owner: None,
            group: None,
        }
    }

    /// An entry for `path`. Where no time of the last change is given, the
    /// entry takes the time of the call.
    pub fn new(
        path: &str,
        is_dir: bool,
        size: u64,
        modified: Option<Timestamp>,
        created: Option<Timestamp>,
    ) -> (entry: Self)
        ensures
            entry@.path == path@,
            entry@.is_dir == is_dir,
            entry@.size == size,
            modified is Some ==> entry@.modified == modified->0,
            entry@.created == created,
            entry@.permissions == 0,
            entry@.owner is None,
            entry@.group is None,
    {
        let stamp = match modified {
            Some(t) => t,
            None => current_time(),
        };
        FileEntry::with_times(path, is_dir, size, stamp, created)
    }

    /// An entry for `path` with what `metadata` holds. A directory has the
    /// size 0, whatever length the file system reports for it; a file has
    /// the length reported. Where `metadata` holds no time of the last
    /// change, the entry takes the time of the call.
    pub fn from_metadata(path: &str, metadata: &EntryMetadata) -> (entry: Self)
        ensures
            entry@.path == path@,
            entry@.is_dir == metadata.is_dir,
            entry@.size == (if metadata.is_dir {
                0
            } else {
                metadata.size
            }),
            metadata.modified is Some ==> entry@.modified == metadata.modified->0,
            entry@.created == metadata.created,
            entry@.permissions == metadata.mode,
            entry@.owner == text_view(metadata.owner),
            entry@.group == text_view(metadata.group),
    {
        let stamp = match metadata.modified {
            Some(t) => t,
            None => current_time(),
        };
        let parts = split_path(path);
        let name = name_from_parts(&parts);
        FileEntry {
            name,
            path: String::from_str(path),
            parts,
            is_dir: metadata.is_dir,
            size: if metadata.is_dir {
                0
            } else {
                metadata.size
            },
            modified: stamp,
            created: metadata.created,
            permissions: metadata.mode,
            owner: clone_text(&metadata.owner),
            group: clone_text(&metadata.group),
        }
    }

    /// The base name.
    pub fn name(&self) -> (r: &str)
        ensures
            r@ == self@.name(),
    {
        proof {
            use_type_invariant(self);
        }
        self.name.as_str()
    }

    /// The path as it was given.
    pub fn path(&self) -> (r: &str)
        ensures
            r@ == self@.path,
    {
        self.path.as_str()
    }

    /// The components of the path.
    pub fn parts(&self) -> (r: &Vec<PathPart>)
        ensures
            parts_view(r@) == self@.parts(),
    {
        proof {
            use_type_invariant(self);
        }
        &self.parts
    }

    /// Whether the entry is a directory.
    pub fn is_dir(&self) -> (r: bool)
        ensures
            r == self@.is_dir,
    {
        self.is_dir
    }

    /// The size in bytes.
    pub fn size(&self) -> (r: u64)
        ensures
            r == self@.size,
    {
        self.size
    }

    /// The time of the last change.
    pub fn modified(&self) -> (r: Timestamp)
        ensures
            r == self@.modified,
    {
        self.modified
    }

    /// The time of creation, where one is known.
    pub fn created(&self) -> (r: Option<Timestamp>)
        ensures
            r == self@.created,
    {
        self.created
    }

    /// The extension of the file name, without its dot.
    pub fn extension(&self) -> (r: Option<&str>)
        ensures
            match r {
                Some(ext) => self@.extension() == Some(ext@),
                None => self@.extension() is None,
            },
    {
        proof {
            use_type_invariant(self);
        }
        if self.parts.len() == 0 {
            return None;
        }
        match &self.parts[self.parts.len() - 1] {
            PathPart::Normal(n) => extension_of_name(n.as_str()),
            _ => None,
        }
    }

    /// The raw mode bits.
    pub fn mode(&self) -> (r: u32)
        ensures
            r == self@.permissions,
    {
        self.permissions
    }

    /// The mode in its ten-character form, such as `drwxr-xr-x`.
    pub fn permissions(&self) -> (r: String)
        ensures
            r@ == self@.permission_text(),
    {
        proof {
            reveal_strlit("d");
            reveal_strlit("-");
            reveal_strlit("r");
            reveal_strlit("w");
            reveal_strlit("x");
        }
        let mode = self.permissions;
        let mut perms = String::new();
        perms.append(if self.is_dir { "d" } else { "-" });
        perms.append(if mode & 0o400 != 0 { "r" } else { "-" });
        perms.append(if mode & 0o200 != 0 { "w" } else { "-" });
        perms.append(if mode & 0o100 != 0 { "x" } else { "-" });
        perms.append(if mode & 0o040 != 0 { "r" } else { "-" });
        perms.append(if mode & 0o020 != 0 { "w" } else { "-" });
        perms.append(if mode & 0o010 != 0 { "x" } else { "-" });
        perms.append(if mode & 0o004 != 0 { "r" } else { "-" });
        perms.append(if mode & 0o002 != 0 { "w" } else { "-" });
        perms.append(if mode & 0o001 != 0 { "x" } else { "-" });
        assert(perms@ =~= permission_chars(self.is_dir, mode));
        perms
    }

    /// The owner's name, where it is known.
    pub fn owner(&self) -> (r: Option<&str>)
        ensures
            match r {
                Some(s) => self@.owner == Some(s@),
                None => self@.owner is None,
            },
    {
        match &self.owner {
            Some(s) => Some(s.as_str()),
            None => None,
        }
    }

    /// The group's name, where it is known.
    pub fn group(&self) -> (r: Option<&str>)
        ensures
            match r {
                Some(s) => self@.group == Some(s@),
                None => self@.group is None,
            },
    {
        match &self.group {
            Some(s) => Some(s.as_str()),
            None => None,
        }
    }
}

} // verus!
