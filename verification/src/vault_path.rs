use crate::text;
use vstd::prelude::*;
use vstd::slice::slice_subrange;
use vstd::utf8::*;

verus! {

/// A component of a path.
#[derive(Debug, PartialEq, Eq)]
pub enum PathPart {
    /// What names a volume, such as a drive.
    Prefix,
    /// The root of the file system or of a volume.
    Root,
    /// The directory itself, `.`.
    Current,
    /// The directory above, `..`.
    Parent,
    /// A name.
    Name(String),
}

/// What a component of a path holds.
pub enum PartView {
    Prefix,
    Root,
    Current,
    Parent,
    Name(Seq<char>),
}

impl View for PathPart {
    type V = PartView;

    open spec fn view(&self) -> PartView {
        match self {
            PathPart::Prefix => PartView::Prefix,
            PathPart::Root => PartView::Root,
            PathPart::Current => PartView::Current,
            PathPart::Parent => PartView::Parent,
            PathPart::Name(name) => PartView::Name(name@),
        }
    }
}

/// What the components of `v` hold.
pub open spec fn part_views(v: Seq<PathPart>) -> Seq<PartView> {
    Seq::new(v.len(), |i: int| v[i]@)
}

/// A path as the machine reads it: whether it is absolute, and its components.
#[derive(Debug, PartialEq, Eq)]
pub struct PathReading {
    pub absolute: bool,
    pub parts: Vec<PathPart>,
}

/// What a reading holds.
pub struct ReadingView {
    pub absolute: bool,
    pub parts: Seq<PartView>,
}

impl View for PathReading {
    type V = ReadingView;

    open spec fn view(&self) -> ReadingView {
        ReadingView { absolute: self.absolute, parts: part_views(self.parts@) }
    }
}

/// Whether a path begins with a slash.
pub open spec fn rooted(path: Seq<char>) -> bool {
    path.len() > 0 && path[0] == '/'
}

/// Whether a path begins with a letter and a colon, which is a drive to some machines.
pub open spec fn starts_with_drive(path: Seq<char>) -> bool {
    path.len() >= 2 && ('a' <= path[0] <= 'z' || 'A' <= path[0] <= 'Z') && path[1] == ':'
}

/// Whether all machines read a path alike: it holds no backslash and begins neither with a drive
/// nor with two slashes.
pub open spec fn portable(path: Seq<char>) -> bool {
    !path.contains('\\') && !starts_with_drive(path) && !"//"@.is_prefix_of(path)
}

/// The components that `parts`, the texts between the slashes of a path, stand for: empty texts and
/// `.` stand for none.
pub open spec fn inner_parts(parts: Seq<Seq<char>>) -> Seq<PartView>
    decreases parts.len(),
{
    if parts.len() == 0 {
        Seq::empty()
    } else {
        let before = inner_parts(parts.drop_last());
        if parts.last().len() == 0 || parts.last() == "."@ {
            before
        } else if parts.last() == ".."@ {
            before.push(PartView::Parent)
        } else {
            before.push(PartView::Name(parts.last()))
        }
    }
}

/// The components of a portable path. A `.` counts at the start of a path that does not begin with
/// a slash.
pub open spec fn slash_parts(path: Seq<char>) -> Seq<PartView> {
    let texts = text::split_on(path, '/');
    let start = if rooted(path) {
        seq![PartView::Root]
    } else if texts[0] == "."@ {
        seq![PartView::Current]
    } else {
        Seq::empty()
    };
    start + inner_parts(texts)
}

/// Whether none of `parts` names a volume.
pub open spec fn without_prefix(parts: Seq<PartView>) -> bool {
    forall|i: int| 0 <= i < parts.len() ==> !((#[trigger] parts[i]) is Prefix)
}

/// Whether the names among `parts` are names: not empty, not `.` or `..`, and, where no volume is
/// named, without slashes.
pub open spec fn well_formed(parts: Seq<PartView>) -> bool {
    forall|i: int|
        0 <= i < parts.len() ==> match #[trigger] parts[i] {
            PartView::Name(name) => {
                &&& name.len() > 0
                &&& name != "."@
                &&& name != ".."@
                &&& without_prefix(parts) ==> !name.contains('/')
            },
            _ => true,
        }
}

/// Whether `reading` can be how a machine reads `path`. A portable path has the same components on
/// all machines, and without a slash at its start it is absolute on none; whether one with a slash
/// at its start is absolute, and how a path that is not portable is read, depends on the machine.
pub open spec fn reads(path: Seq<char>, reading: ReadingView) -> bool {
    &&& well_formed(reading.parts)
    &&& portable(path) ==> reading.parts == slash_parts(path)
    &&& portable(path) && !rooted(path) ==> !reading.absolute
}

/// Calls `std::path::Path::components`. It drops repeated separators and `.`, except at the start
/// of the path, and tells names from `.`, `..`, roots and prefixes. On a path without what only
/// some machines take for a separator or a prefix, the components are those between slashes. What
/// else is a separator or a prefix depends on the machine and is not stated.
#[verifier::external_body]
fn path_parts(path: &str) -> (r: Vec<PathPart>)
    ensures
        well_formed(part_views(r@)),
        portable(path@) ==> part_views(r@) == slash_parts(path@),
{
    std::path::Path::new(path).components().map(|c| match c {
        std::path::Component::Prefix(_) => PathPart::Prefix,
        std::path::Component::RootDir => PathPart::Root,
        std::path::Component::CurDir => PathPart::Current,
        std::path::Component::ParentDir => PathPart::Parent,
        std::path::Component::Normal(name) => PathPart::Name(name.to_string_lossy().into_owned()),
    }).collect()
}

/// Calls `std::path::Path::is_absolute`. A path that has neither a root nor a prefix is absolute on
/// no machine. A root alone makes a path absolute on some machines and not on others, so of paths
/// with one nothing is stated.
#[verifier::external_body]
fn path_is_absolute(path: &str) -> (r: bool)
    ensures
        portable(path@) && !rooted(path@) ==> !r,
{
    std::path::Path::new(path).is_absolute()
}

/// Reads `path` as this machine does.
pub fn read_path(path: &str) -> (r: PathReading)
    ensures
        reads(path@, r@),
{
    PathReading { absolute: path_is_absolute(path), parts: path_parts(path) }
}

/// Whether a reading holds only names.
pub open spec fn only_names(reading: ReadingView) -> bool {
    forall|i: int| 0 <= i < reading.parts.len() ==> (#[trigger] reading.parts[i]) is Name
}

/// Why a path cannot stand for a place below the vault root, if it cannot: it is absolute, or holds
/// something other than names.
pub open spec fn path_fault(reading: ReadingView) -> Option<Seq<char>> {
    if reading.absolute {
        Some("note path must be relative"@)
    } else if !only_names(reading) {
        Some("note path contains invalid segments"@)
    } else {
        None
    }
}

/// The names in a path that holds only names.
pub open spec fn names(reading: ReadingView) -> Seq<Seq<char>> {
    Seq::new(reading.parts.len(), |i: int| reading.parts[i]->Name_0)
}

/// The names that lead from the vault root to a path that was read as `reading`.
pub fn safe_names(reading: PathReading) -> (r: Result<Vec<String>, String>)
    ensures
        match r {
            Ok(v) => path_fault(reading@) is None && text::texts(v@) == names(reading@),
            Err(e) => path_fault(reading@) == Some(e@),
        },
{
    if reading.absolute {
        return Err("note path must be relative".to_owned());
    }
    let mut out: Vec<String> = Vec::new();
    let mut i: usize = 0;
    while i < reading.parts.len()
        invariant
            i <= reading.parts@.len(),
            !reading.absolute,
            forall|k: int| 0 <= k < i ==> (#[trigger] reading@.parts[k]) is Name,
            text::texts(out@) =~= names(reading@).take(i as int),
        decreases reading.parts.len() - i,
    {
        let ghost before = out@;
        assert(reading@.parts[i as int] == reading.parts@[i as int]@);
        match &reading.parts[i] {
            PathPart::Name(name) => {
                out.push(name.clone());
                assert(text::texts(out@) =~= text::texts(before).push(name@));
            },
            _ => {
                assert(!only_names(reading@));
                return Err("note path contains invalid segments".to_owned());
            },
        }
        i += 1;
    }
    proof {
        assert(names(reading@).take(reading@.parts.len() as int) =~= names(reading@));
    }
    Ok(out)
}

/// The names that lead from the vault root to `path`, as this machine reads it.
pub fn parse_safe_relative_path(path: &str) -> (r: Result<Vec<String>, String>)
    ensures
        exists|reading: ReadingView| #[trigger]
            reads(path@, reading) && match r {
                Ok(v) => path_fault(reading) is None && text::texts(v@) == names(reading),
                Err(e) => path_fault(reading) == Some(e@),
            },
{
    let reading = read_path(path);
    let ghost view = reading@;
    let r = safe_names(reading);
    assert(reads(path@, view));
    r
}

/// The name of what a path leads to: its last component, if that is a name.
pub open spec fn file_name(reading: ReadingView) -> Option<Seq<char>> {
    if reading.parts.len() == 0 {
        None
    } else {
        match reading.parts.last() {
            PartView::Name(name) => Some(name),
            _ => None,
        }
    }
}

/// The text that an optional string holds.
pub open spec fn optional_text(s: Option<String>) -> Option<Seq<char>> {
    match s {
        Some(t) => Some(t@),
        None => None,
    }
}

/// Whether `leaf` can be the name of what `path` leads to, as a machine reads it.
pub open spec fn reads_leaf(path: Seq<char>, leaf: Option<Seq<char>>) -> bool {
    exists|reading: ReadingView| #[trigger] reads(path, reading) && file_name(reading) == leaf
}

/// The name of what a path that was read as `reading` leads to.
pub fn leaf_name(reading: PathReading) -> (r: Option<String>)
    ensures
        optional_text(r) == file_name(reading@),
{
    let ghost view = reading@;
    let PathReading { parts, .. } = reading;
    let mut parts = parts;
    match parts.pop() {
        Some(part) => {
            assert(view.parts.last() == part@);
            match part {
                PathPart::Name(name) => Some(name),
                _ => None,
            }
        },
        None => None,
    }
}

/// The name of what `path` leads to, as this machine reads it.
pub fn path_file_name(path: &str) -> (r: Option<String>)
    ensures
        reads_leaf(path@, optional_text(r)),
{
    let reading = read_path(path);
    let ghost view = reading@;
    let r = leaf_name(reading);
    assert(reads(path@, view));
    r
}

/// A file name without its extension: what stands before its last dot, if that dot is not its
/// first character.
pub open spec fn stem_of(name: Seq<char>) -> Seq<char> {
    let i = text::last_at(name, '.');
    if i <= 0 {
        name
    } else {
        name.take(i)
    }
}

/// The extension of a file name: what stands behind its last dot, if that dot is not its first
/// character.
pub open spec fn extension_of(name: Seq<char>) -> Option<Seq<char>> {
    let i = text::last_at(name, '.');
    if i <= 0 {
        None
    } else {
        Some(name.skip(i + 1))
    }
}

/// A file name without its extension.
pub fn name_stem(name: &[char]) -> (r: &[char])
    ensures
        r@ == stem_of(name@),
{
    match text::find_last(name, '.') {
        Some(i) if i > 0 => {
            assert(name@.subrange(0, i as int) =~= name@.take(i as int));
            slice_subrange(name, 0, i)
        },
        _ => name,
    }
}

/// The extension of a file name.
pub fn name_extension(name: &[char]) -> (r: Option<&[char]>)
    ensures
        match r {
            Some(v) => extension_of(name@) == Some(v@),
            None => extension_of(name@) is None,
        },
{
    let n = name.len();
    match text::find_last(name, '.') {
        Some(i) if i > 0 => {
            assert(name@.subrange(i + 1, name@.len() as int) =~= name@.skip(i + 1));
            Some(slice_subrange(name, i + 1, n))
        },
        _ => None,
    }
}

/// The stem of a file name, if there is one.
pub open spec fn leaf_stem(leaf: Option<Seq<char>>) -> Option<Seq<char>> {
    match leaf {
        Some(name) => Some(stem_of(name)),
        None => None,
    }
}

/// The extension of a file name, if there is one.
pub open spec fn leaf_extension(leaf: Option<Seq<char>>) -> Option<Seq<char>> {
    match leaf {
        Some(name) => extension_of(name),
        None => None,
    }
}

/// The stem of a file name, if there is one.
pub fn file_stem(leaf: &Option<String>) -> (r: Option<String>)
    ensures
        optional_text(r) == leaf_stem(optional_text(*leaf)),
{
    match leaf {
        Some(name) => {
            let chars = text::chars_of(name.as_str());
            Some(text::string_of(name_stem(chars.as_slice())))
        },
        None => None,
    }
}

/// The extension of a file name, if there is one.
pub fn file_extension(leaf: &Option<String>) -> (r: Option<String>)
    ensures
        optional_text(r) == leaf_extension(optional_text(*leaf)),
{
    match leaf {
        Some(name) => {
            let chars = text::chars_of(name.as_str());
            match name_extension(chars.as_slice()) {
                Some(ext) => Some(text::string_of(ext)),
                None => None,
            }
        },
        None => None,
    }
}

/// An absolute path, as the bytes of the components that lead to it.
#[derive(Debug)]
pub struct AbsPath {
    pub names: Vec<Vec<u8>>,
}

/// The byte sequences that the rows of `v` hold.
pub open spec fn byte_rows(v: Seq<Vec<u8>>) -> Seq<Seq<u8>> {
    Seq::new(v.len(), |i: int| v[i]@)
}

impl View for AbsPath {
    type V = Seq<Seq<u8>>;

    open spec fn view(&self) -> Seq<Seq<u8>> {
        byte_rows(self.names@)
    }
}

impl AbsPath {
    /// A copy of the path.
    pub fn copy(&self) -> (r: AbsPath)
        ensures
            r@ == self@,
    {
        let mut names: Vec<Vec<u8>> = Vec::new();
        let mut i: usize = 0;
        while i < self.names.len()
            invariant
                i <= self.names@.len(),
                byte_rows(names@) =~= self@.take(i as int),
            decreases self.names.len() - i,
        {
            let ghost before = names@;
            names.push(text::copied_bytes(self.names[i].as_slice()));
            i += 1;
            proof {
                assert(byte_rows(names@) =~= byte_rows(before).push(self@[i - 1]));
            }
        }
        proof {
            assert(self@.take(self@.len() as int) =~= self@);
        }
        AbsPath { names }
    }

    /// Whether the path is `base` or lies below it.
    pub fn starts_with(&self, base: &AbsPath) -> (r: bool)
        ensures
            r == base@.is_prefix_of(self@),
    {
        if base.names.len() > self.names.len() {
            return false;
        }
        let mut i: usize = 0;
        while i < base.names.len()
            invariant
                i <= base.names@.len() <= self.names@.len(),
                forall|k: int| 0 <= k < i ==> base@[k] == self@[k],
            decreases base.names.len() - i,
        {
            if !text::same_bytes(base.names[i].as_slice(), self.names[i].as_slice()) {
                assert(base@[i as int] != self@[i as int]);
                proof {
                    if base@.is_prefix_of(self@) {
                        assert(self@.take(base@.len() as int)[i as int] == self@[i as int]);
                    }
                }
                return false;
            }
            assert(base@[i as int] == self@[i as int]);
            i += 1;
        }
        assert(base@ =~= self@.take(base@.len() as int));
        true
    }
}

/// The UTF-8 bytes of each of `names`.
pub open spec fn encoded(names: Seq<Seq<char>>) -> Seq<Seq<u8>> {
    Seq::new(names.len(), |i: int| encode_utf8(names[i]))
}

} // verus!
