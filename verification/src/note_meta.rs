use crate::ordering;
use crate::ordering::Ordered;
use crate::text;
use vstd::prelude::*;
use vstd::slice::slice_subrange;

verus! {

/// What is shown of a note without its text.
#[derive(Debug, PartialEq, Eq)]
pub struct NoteMeta {
    pub id: String,
    pub path: String,
    pub name: String,
    pub title: String,
    pub mtime_ms: i64,
    pub size_bytes: i64,
}

impl Clone for NoteMeta {
    fn clone(&self) -> (r: Self)
        ensures
            r == *self,
    {
        NoteMeta {
            id: self.id.clone(),
            path: self.path.clone(),
            name: self.name.clone(),
            title: self.title.clone(),
            mtime_ms: self.mtime_ms,
            size_bytes: self.size_bytes,
        }
    }
}

/// A note with its text.
#[derive(Debug)]
pub struct NoteDoc {
    pub meta: NoteMeta,
    pub markdown: String,
}

/// The text of a note that is to be written, and when the note is thought to have been changed
/// last.
#[derive(Debug)]
pub struct NoteWriteArgs {
    pub vault_id: String,
    pub note_id: String,
    pub markdown: String,
    pub expected_mtime_ms: Option<i64>,
}

/// A note that is to be created.
#[derive(Debug)]
pub struct NoteCreateArgs {
    pub vault_id: String,
    pub note_path: String,
    pub initial_markdown: String,
}

/// A note that is to be renamed.
#[derive(Debug)]
pub struct NoteRenameArgs {
    pub vault_id: String,
    pub from: String,
    pub to: String,
}

/// A note that is to be deleted.
#[derive(Debug)]
pub struct NoteDeleteArgs {
    pub vault_id: String,
    pub note_id: String,
}

/// The last segment of a path.
pub open spec fn leaf_of(path: Seq<char>) -> Seq<char> {
    path.skip(text::last_at(path, '/') + 1)
}

/// The name of the note at a path: its last segment without the `.md` at its end.
pub open spec fn note_name(path: Seq<char>) -> Seq<char> {
    let leaf = leaf_of(path);
    if ".md"@.is_suffix_of(leaf) {
        leaf.take(leaf.len() - 3)
    } else {
        leaf
    }
}

/// The name of the note at `rel_path`.
pub fn name_from_rel_path(rel_path: &str) -> (r: String)
    ensures
        r@ == note_name(rel_path@),
{
    let chars = text::chars_of(rel_path);
    let n = chars.len();
    let from = match text::find_last(chars.as_slice(), '/') {
        Some(i) => i + 1,
        None => 0,
    };
    let leaf = slice_subrange(chars.as_slice(), from, n);
    let md = text::chars_of(".md");
    proof {
        assert(leaf@ =~= leaf_of(rel_path@));
        reveal_strlit(".md");
    }
    if text::has_suffix(leaf, md.as_slice()) {
        assert(leaf@.subrange(0, leaf@.len() - 3) =~= leaf@.take(leaf@.len() - 3));
        text::string_of(slice_subrange(leaf, 0, leaf.len() - 3))
    } else {
        text::string_of(leaf)
    }
}

/// The first line from place `n` on that holds more than white space, without the white space
/// around it.
pub open spec fn first_line(lines: Seq<Seq<char>>, n: int) -> Option<Seq<char>>
    decreases lines.len() - n,
{
    if n < 0 || n >= lines.len() {
        None
    } else if text::trim(lines[n]).len() > 0 {
        Some(text::trim(lines[n]))
    } else {
        first_line(lines, n + 1)
    }
}

/// The title of a note: the heading of the first level that its first line with text is, and else
/// `fallback`.
pub open spec fn title_of(content: Seq<char>, fallback: Seq<char>) -> Seq<char> {
    match first_line(text::split_on(content, '\n'), 0) {
        Some(line) => {
            let heading = text::trim(line.skip(2));
            if "# "@.is_prefix_of(line) && heading.len() > 0 {
                heading
            } else {
                fallback
            }
        },
        None => fallback,
    }
}

/// The title of a note that begins with `content`, or `fallback` if it has none.
pub fn title_in(content: &str, fallback: &str) -> (r: String)
    ensures
        r@ == title_of(content@, fallback@),
{
    let chars = text::chars_of(content);
    let lines = text::split(chars.as_slice(), '\n');
    let mark = text::chars_of("# ");
    let ghost all = text::rows(lines@);
    let mut i: usize = 0;
    while i < lines.len()
        invariant
            i <= lines@.len(),
            all == text::rows(lines@),
            all == text::split_on(content@, '\n'),
            mark@ == "# "@,
            first_line(all, 0) == first_line(all, i as int),
        decreases lines.len() - i,
    {
        let line = text::trimmed(lines[i].as_slice());
        assert(all[i as int] == lines@[i as int]@);
        if line.len() > 0 {
            if text::has_prefix(line, mark.as_slice()) {
                proof {
                    reveal_strlit("# ");
                    assert(line@.subrange(2, line@.len() as int) =~= line@.skip(2));
                }
                let heading = text::trimmed(slice_subrange(line, 2, line.len()));
                if heading.len() > 0 {
                    return text::string_of(heading);
                }
            }
            return fallback.to_owned();
        }
        i += 1;
    }
    fallback.to_owned()
}

/// The bytes of a file name before its last dot, if that dot is not its first byte.
pub open spec fn stem_bytes(name: Seq<u8>) -> Seq<u8> {
    let i = text::last_byte_at(name, '.' as u8);
    if i <= 0 {
        name
    } else {
        name.take(i)
    }
}

/// The title of a note in a file of the name `file_name` that begins with the bytes `prefix`: its
/// heading, or the file name without its extension. Bytes that are no UTF-8 are replaced.
pub fn extract_title(file_name: &[u8], prefix: &[u8]) -> (r: String)
    ensures
        r@ == title_of(text::lossy_text(prefix@), text::lossy_text(stem_bytes(file_name@))),
{
    let stem = match text::find_last_byte(file_name, '.' as u8) {
        Some(i) if i > 0 => {
            assert(file_name@.subrange(0, i as int) =~= file_name@.take(i as int));
            slice_subrange(file_name, 0, i)
        },
        _ => file_name,
    };
    let content = text::decode_lossy(prefix);
    let fallback = text::decode_lossy(stem);
    title_in(content.as_str(), fallback.as_str())
}

/// When a file was changed last, in milliseconds since the epoch, and its size, as they are shown;
/// a time that is not known is shown as 0.
pub fn file_meta(len: u64, modified_ms: Option<u128>) -> (r: (i64, i64))
    ensures
        r.0 == (match modified_ms {
            Some(ms) => ms as i64,
            None => 0,
        }),
        r.1 == len as i64,
{
    let size = len as i64;
    let mtime = match modified_ms {
        Some(ms) => ms as i64,
        None => 0,
    };
    (mtime, size)
}

/// What is shown of the note at `rel_path`.
pub fn build_note_meta(rel_path: &str, title: String, mtime_ms: i64, size_bytes: i64) -> (r:
    NoteMeta)
    ensures
        r.id@ == rel_path@,
        r.path@ == rel_path@,
        r.name@ == note_name(rel_path@),
        r.title@ == title@,
        r.mtime_ms == mtime_ms,
        r.size_bytes == size_bytes,
{
    NoteMeta {
        id: rel_path.to_owned(),
        path: rel_path.to_owned(),
        name: name_from_rel_path(rel_path),
        title,
        mtime_ms,
        size_bytes,
    }
}

/// Whether a file name has the extension `md`.
pub open spec fn named_as_note(name: Seq<u8>) -> bool {
    let i = text::last_byte_at(name, '.' as u8);
    i > 0 && name.skip(i + 1) == seq!['m' as u8, 'd' as u8]
}

/// Whether what a walk through the vault came to is a note: a file whose name has the extension
/// `md`.
pub fn is_note_file(is_file: bool, name: &[u8]) -> (r: bool)
    ensures
        r == (is_file && named_as_note(name@)),
{
    let n = name.len();
    if !is_file {
        return false;
    }
    match text::find_last_byte(name, '.' as u8) {
        Some(i) if i > 0 => {
            let r = n - i == 3 && name[i + 1] == 'm' as u8 && name[i + 2] == 'd' as u8;
            proof {
                let ext = name@.skip(i + 1);
                if r {
                    assert(ext =~= seq!['m' as u8, 'd' as u8]);
                } else if ext == seq!['m' as u8, 'd' as u8] {
                    assert(seq!['m' as u8, 'd' as u8].len() == 2);
                    assert(ext.len() == name@.len() - i - 1);
                    assert(ext[0] == name@[i + 1]);
                    assert(ext[1] == name@[i + 2]);
                }
            }
            r
        },
        _ => false,
    }
}

impl Ordered for NoteMeta {
    open spec fn before(self, other: Self) -> bool {
        text::text_less(self.path@, other.path@)
    }

    proof fn before_is_strict(a: Self) {
        text::lemma_text_less_strict(a.path@);
    }

    proof fn before_is_transitive(a: Self, b: Self, c: Self) {
        text::lemma_text_less_chain(a.path@, b.path@, c.path@);
    }

    proof fn rank_is_transitive(a: Self, b: Self, c: Self) {
        text::lemma_text_rank_chain(a.path@, b.path@, c.path@);
    }

    fn is_before(&self, other: &Self) -> (r: bool) {
        match text::relate(self.path.as_str(), other.path.as_str()) {
            text::Relation::Less => true,
            _ => false,
        }
    }
}

/// The notes that a walk through the vault found, in the order of their paths.
pub fn list_notes(found: Vec<NoteMeta>) -> (r: Vec<NoteMeta>)
    ensures
        r@ == ordering::sorted(found@),
{
    ordering::sort(found)
}

} // verus!
