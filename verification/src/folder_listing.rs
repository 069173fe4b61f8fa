use crate::folder_cache::FolderEntry;
use crate::note_meta;
use crate::note_meta::NoteMeta;
use crate::ordering;
use crate::ordering::Ordered;
use crate::text;
use crate::vault_lookup;
use crate::vault_lookup::VaultLookup;
use vstd::prelude::*;

verus! {

/// One page of what is in a folder.
#[derive(Debug)]
pub struct FolderContents {
    pub notes: Vec<NoteMeta>,
    pub subfolders: Vec<String>,
    pub total_count: usize,
    pub has_more: bool,
}

/// How many notes and folders lie below a folder.
#[derive(Debug, Clone, Copy, PartialEq, Eq, Structural)]
pub struct FolderStats {
    pub note_count: usize,
    pub folder_count: usize,
}

/// A folder that is to be created.
#[derive(Debug)]
pub struct FolderCreateArgs {
    pub vault_id: String,
    pub parent_path: String,
    pub folder_name: String,
}

/// A folder that is to be renamed.
#[derive(Debug)]
pub struct FolderRenameArgs {
    pub vault_id: String,
    pub from_path: String,
    pub to_path: String,
}

/// A folder that is to be deleted.
#[derive(Debug)]
pub struct FolderDeleteArgs {
    pub vault_id: String,
    pub folder_path: String,
}

/// The search for the place of a folder; `None` for the vault root, which needs no search.
pub fn resolve_folder_abs(folder_path: &str) -> (r: Option<VaultLookup>)
    ensures
        match r {
            Some(lookup) => folder_path@.len() > 0 && vault_lookup::begins(
                lookup@,
                folder_path@,
                false,
            ) && vault_lookup::in_bounds(lookup@),
            None => folder_path@.len() == 0,
        },
{
    if folder_path.is_empty() {
        None
    } else {
        Some(vault_lookup::safe_vault_abs(folder_path))
    }
}

/// Fails with `message` unless what was looked at is a directory.
pub fn ensure_directory(is_dir: bool, message: &str) -> (r: Result<(), String>)
    ensures
        match r {
            Ok(_) => is_dir,
            Err(e) => !is_dir && e@ == message@,
        },
{
    if is_dir {
        Ok(())
    } else {
        Err(message.to_owned())
    }
}

/// Whether a new folder cannot have a name: it holds a slash or a backslash, or begins with a dot.
pub open spec fn bad_folder_name(name: Seq<char>) -> bool {
    name.contains('/') || name.contains('\\') || (name.len() > 0 && name[0] == '.')
}

/// Whether a new folder can have the name `name`.
pub fn check_folder_name(name: &str) -> (r: Result<(), String>)
    ensures
        match r {
            Ok(_) => !bad_folder_name(name@),
            Err(e) => bad_folder_name(name@) && e@ == "invalid folder name"@,
        },
{
    let chars = text::chars_of(name);
    let slash = text::find_first(chars.as_slice(), '/');
    let back = text::find_first(chars.as_slice(), '\\');
    proof {
        if slash < chars.len() {
            assert(name@[slash as int] == '/');
        }
        if back < chars.len() {
            assert(name@[back as int] == '\\');
        }
    }
    if slash < chars.len() || back < chars.len() || (chars.len() > 0 && chars[0] == '.') {
        Err("invalid folder name".to_owned())
    } else {
        Ok(())
    }
}

/// Whether a folder can be renamed: neither path is the vault root.
pub fn check_folder_rename(from_path: &str, to_path: &str) -> (r: Result<(), String>)
    ensures
        match r {
            Ok(_) => from_path@.len() > 0 && to_path@.len() > 0,
            Err(e) => (from_path@.len() == 0 || to_path@.len() == 0) && e@
                == "cannot rename vault root"@,
        },
{
    if from_path.is_empty() || to_path.is_empty() {
        Err("cannot rename vault root".to_owned())
    } else {
        Ok(())
    }
}

/// Whether a folder can be deleted: it is not the vault root.
pub fn check_folder_delete(folder_path: &str) -> (r: Result<(), String>)
    ensures
        match r {
            Ok(_) => folder_path@.len() > 0,
            Err(e) => folder_path@.len() == 0 && e@ == "cannot delete vault root"@,
        },
{
    if folder_path.is_empty() {
        Err("cannot delete vault root".to_owned())
    } else {
        Ok(())
    }
}

/// What a look into a folder came to: its name, whether it is one of those that are left out, and
/// whether it is a directory, if that could be found out.
#[derive(Debug)]
pub struct ScannedEntry {
    pub name: String,
    pub excluded: bool,
    pub is_dir: Result<bool, String>,
}

/// Whether the name of a file ends in `.md`.
pub open spec fn md_name(name: Seq<char>) -> bool {
    ".md"@.is_suffix_of(name)
}

/// The notes and folders among the first `n` of what a look into a folder came to, or the error
/// that came up on the way.
pub open spec fn entries_among(found: Seq<Result<ScannedEntry, String>>, n: int) -> Result<
    Seq<FolderEntry>,
    String,
>
    decreases n,
{
    if n <= 0 {
        Ok(Seq::empty())
    } else {
        match entries_among(found, n - 1) {
            Err(e) => Err(e),
            Ok(before) => match found[n - 1] {
                Err(e) => Err(e),
                Ok(entry) => if entry.excluded {
                    Ok(before)
                } else {
                    match entry.is_dir {
                        Err(e) => Err(e),
                        Ok(is_dir) => if is_dir || md_name(entry.name@) {
                            Ok(before.push(FolderEntry { name: entry.name, is_dir }))
                        } else {
                            Ok(before)
                        },
                    }
                },
            },
        }
    }
}

proof fn lemma_scan_stops(found: Seq<Result<ScannedEntry, String>>, i: int, n: int)
    requires
        0 <= i <= n,
        entries_among(found, i) is Err,
    ensures
        entries_among(found, n) == entries_among(found, i),
    decreases n - i,
{
    if i < n {
        lemma_scan_stops(found, i, n - 1);
    }
}

/// Folders come before notes; within each, names are in order without regard to the case of ASCII
/// letters, and names that differ only in that are in order with regard to it.
pub open spec fn listed_before(a: FolderEntry, b: FolderEntry) -> bool {
    if a.is_dir != b.is_dir {
        a.is_dir
    } else {
        let low_a = text::ascii_lower(a.name@);
        let low_b = text::ascii_lower(b.name@);
        text::text_less(low_a, low_b) || (low_a == low_b && text::text_less(a.name@, b.name@))
    }
}

impl Ordered for FolderEntry {
    open spec fn before(self, other: Self) -> bool {
        listed_before(self, other)
    }

    proof fn before_is_strict(a: Self) {
        text::lemma_text_less_strict(a.name@);
        text::lemma_text_less_strict(text::ascii_lower(a.name@));
    }

    proof fn before_is_transitive(a: Self, b: Self, c: Self) {
        let x = text::ascii_lower(a.name@);
        let y = text::ascii_lower(b.name@);
        let z = text::ascii_lower(c.name@);
        if text::text_less(x, y) && text::text_less(y, z) {
            text::lemma_text_less_chain(x, y, z);
        }
        if text::text_less(a.name@, b.name@) && text::text_less(b.name@, c.name@) {
            text::lemma_text_less_chain(a.name@, b.name@, c.name@);
        }
    }

    proof fn rank_is_transitive(a: Self, b: Self, c: Self) {
        let x = text::ascii_lower(a.name@);
        let y = text::ascii_lower(b.name@);
        let z = text::ascii_lower(c.name@);
        if a.is_dir == b.is_dir && b.is_dir == c.is_dir {
            text::lemma_text_rank_chain(x, y, z);
            text::lemma_text_less_total(x, y);
            text::lemma_text_less_total(y, z);
            if x == y && y == z {
                text::lemma_text_rank_chain(a.name@, b.name@, c.name@);
            } else if x == z {
                text::lemma_text_less_strict(x);
                if text::text_less(y, x) && text::text_less(z, y) {
                    text::lemma_text_less_chain(z, y, x);
                }
            }
        }
    }

    fn is_before(&self, other: &Self) -> (r: bool) {
        if self.is_dir != other.is_dir {
            return self.is_dir;
        }
        let a = text::chars_of(self.name.as_str());
        let b = text::chars_of(other.name.as_str());
        let low_a = text::lowered(a.as_slice());
        let low_b = text::lowered(b.as_slice());
        let x = text::string_of(low_a.as_slice());
        let y = text::string_of(low_b.as_slice());
        proof {
            text::lemma_text_less_strict(x@);
        }
        match text::relate(x.as_str(), y.as_str()) {
            text::Relation::Less => true,
            text::Relation::Greater => {
                proof {
                    if text::text_less(x@, y@) {
                        text::lemma_text_less_chain(x@, y@, x@);
                    }
                }
                false
            },
            text::Relation::Equal => match text::relate(self.name.as_str(), other.name.as_str()) {
                text::Relation::Less => true,
                _ => false,
            },
        }
    }
}

/// The notes and folders in a folder, in the order in which they are listed.
pub fn scan_folder_entries(found: Vec<Result<ScannedEntry, String>>) -> (r: Result<
    Vec<FolderEntry>,
    String,
>)
    ensures
        match entries_among(found@, found@.len() as int) {
            Ok(entries) => r matches Ok(items) && items@ == ordering::sorted(entries),
            Err(e) => r == Err::<Vec<FolderEntry>, String>(e),
        },
{
    let mut items: Vec<FolderEntry> = Vec::new();
    let md = text::chars_of(".md");
    let ghost all = found@;
    for entry in it: found
        invariant
            it.seq() == all,
            md@ == ".md"@,
            entries_among(all, it.index()) == Ok::<Seq<FolderEntry>, String>(items@),
    {
        let ghost at = it.index();
        assert(all[at] == entry);
        match entry {
            Err(e) => {
                proof {
                    lemma_scan_stops(all, at + 1, all.len() as int);
                }
                return Err(e);
            },
            Ok(entry) => {
                if !entry.excluded {
                    match entry.is_dir {
                        Err(e) => {
                            proof {
                                lemma_scan_stops(all, at + 1, all.len() as int);
                            }
                            return Err(e);
                        },
                        Ok(is_dir) => {
                            let name = text::chars_of(entry.name.as_str());
                            if is_dir || text::has_suffix(name.as_slice(), md.as_slice()) {
                                items.push(FolderEntry { name: entry.name, is_dir });
                            }
                        },
                    }
                }
            },
        }
    }
    Ok(ordering::sort(items))
}

/// The path of `name` in the folder `folder`.
pub open spec fn path_in(folder: Seq<char>, name: Seq<char>) -> Seq<char> {
    if folder.len() == 0 {
        name
    } else {
        folder + "/"@ + name
    }
}

/// The paths of those of `entries` that are folders, if `dirs`, or else of those that are notes.
pub open spec fn paths_of(entries: Seq<FolderEntry>, folder: Seq<char>, dirs: bool) -> Seq<Seq<char>>
    decreases entries.len(),
{
    if entries.len() == 0 {
        Seq::empty()
    } else if entries.last().is_dir == dirs {
        paths_of(entries.drop_last(), folder, dirs).push(path_in(folder, entries.last().name@))
    } else {
        paths_of(entries.drop_last(), folder, dirs)
    }
}

/// Where the page of at most `limit` entries from `offset` on begins and ends.
pub open spec fn page_bounds(offset: int, limit: int, total: int) -> (int, int) {
    let start = if offset < total {
        offset
    } else {
        total
    };
    let end = if start + limit < total {
        start + limit
    } else {
        total
    };
    (start, end)
}

/// One page of what is in a folder, as paths.
#[derive(Debug)]
pub struct FolderPage {
    pub note_paths: Vec<String>,
    pub subfolders: Vec<String>,
    pub total_count: usize,
    pub has_more: bool,
}

/// The path of `name` in the folder `folder`.
fn make_path(folder: &str, name: &str) -> (r: String)
    ensures
        r@ == path_in(folder@, name@),
{
    if folder.is_empty() {
        return name.to_owned();
    }
    let mut path = text::chars_of(folder);
    let slash = text::chars_of("/");
    let tail = text::chars_of(name);
    text::append(&mut path, slash.as_slice());
    text::append(&mut path, tail.as_slice());
    text::string_of(path.as_slice())
}

/// The page of at most `limit` of the entries `items` of a folder from `offset` on.
pub fn list_folder_contents(
    items: &Vec<FolderEntry>,
    folder_path: &str,
    offset: usize,
    limit: usize,
) -> (r: FolderPage)
    ensures
        ({
            let (start, end) = page_bounds(offset as int, limit as int, items@.len() as int);
            let page = items@.subrange(start, end);
            &&& text::texts(r.note_paths@) == paths_of(page, folder_path@, false)
            &&& text::texts(r.subfolders@) == paths_of(page, folder_path@, true)
            &&& r.total_count == items@.len()
            &&& r.has_more == (end < items@.len())
        }),
{
    let total_count = items.len();
    let start = if offset < total_count {
        offset
    } else {
        total_count
    };
    let end = if limit < total_count - start {
        start + limit
    } else {
        total_count
    };
    let ghost page = items@.subrange(start as int, end as int);
    let mut note_paths: Vec<String> = Vec::new();
    let mut subfolders: Vec<String> = Vec::new();
    let mut i: usize = start;
    proof {
        assert(page.take(0) =~= Seq::<FolderEntry>::empty());
        assert(text::texts(note_paths@) =~= Seq::<Seq<char>>::empty());
        assert(text::texts(subfolders@) =~= Seq::<Seq<char>>::empty());
    }
    while i < end
        invariant
            start <= i <= end <= items@.len(),
            page == items@.subrange(start as int, end as int),
            text::texts(note_paths@) == paths_of(page.take(i - start), folder_path@, false),
            text::texts(subfolders@) == paths_of(page.take(i - start), folder_path@, true),
        decreases end - i,
    {
        let entry = &items[i];
        let ghost notes_before = note_paths@;
        let ghost folders_before = subfolders@;
        proof {
            let next = page.take(i + 1 - start);
            assert(next.drop_last() =~= page.take(i - start));
            assert(next.last() == items@[i as int]);
        }
        let rel = make_path(folder_path, entry.name.as_str());
        if entry.is_dir {
            subfolders.push(rel);
            assert(text::texts(subfolders@) =~= text::texts(folders_before).push(rel@));
        } else {
            note_paths.push(rel);
            assert(text::texts(note_paths@) =~= text::texts(notes_before).push(rel@));
        }
        i += 1;
    }
    proof {
        assert(page.take(end - start) =~= page);
    }
    FolderPage { note_paths, subfolders, total_count, has_more: end < total_count }
}

/// The contents of a folder for the page `page`, whose notes are `notes`.
pub fn page_contents(page: FolderPage, notes: Vec<NoteMeta>) -> (r: FolderContents)
    ensures
        r.notes@ == notes@,
        r.subfolders@ == page.subfolders@,
        r.total_count == page.total_count,
        r.has_more == page.has_more,
{
    FolderContents {
        notes,
        subfolders: page.subfolders,
        total_count: page.total_count,
        has_more: page.has_more,
    }
}

/// What a walk through a folder came to: whether it is that folder itself, whether it is a file or
/// a directory, and its name.
#[derive(Debug)]
pub struct WalkedEntry {
    pub at_root: bool,
    pub is_file: bool,
    pub is_dir: bool,
    pub name: Vec<u8>,
}

/// Whether a walk came to a note.
pub open spec fn counts_as_note(entry: WalkedEntry) -> bool {
    !entry.at_root && entry.is_file && note_meta::named_as_note(entry.name@)
}

/// Whether a walk came to a folder below the one where it began.
pub open spec fn counts_as_folder(entry: WalkedEntry) -> bool {
    !entry.at_root && !counts_as_note(entry) && entry.is_dir
}

/// How many of `entries` are notes.
pub open spec fn notes_among(entries: Seq<WalkedEntry>) -> nat
    decreases entries.len(),
{
    if entries.len() == 0 {
        0
    } else {
        notes_among(entries.drop_last()) + if counts_as_note(entries.last()) {
            1nat
        } else {
            0nat
        }
    }
}

/// How many of `entries` are folders.
pub open spec fn folders_among(entries: Seq<WalkedEntry>) -> nat
    decreases entries.len(),
{
    if entries.len() == 0 {
        0
    } else {
        folders_among(entries.drop_last()) + if counts_as_folder(entries.last()) {
            1nat
        } else {
            0nat
        }
    }
}

/// How many notes and folders a walk through a folder came to.
pub fn get_folder_stats(entries: &Vec<WalkedEntry>) -> (r: FolderStats)
    ensures
        r.note_count == notes_among(entries@),
        r.folder_count == folders_among(entries@),
{
    let mut note_count: usize = 0;
    let mut folder_count: usize = 0;
    let mut i: usize = 0;
    proof {
        assert(entries@.take(0) =~= Seq::<WalkedEntry>::empty());
    }
    while i < entries.len()
        invariant
            i <= entries@.len(),
            note_count == notes_among(entries@.take(i as int)),
            folder_count == folders_among(entries@.take(i as int)),
            note_count + folder_count <= i,
        decreases entries.len() - i,
    {
        let entry = &entries[i];
        proof {
            let next = entries@.take(i + 1);
            assert(next.drop_last() =~= entries@.take(i as int));
            assert(next.last() == *entry);
        }
        if !entry.at_root {
            if note_meta::is_note_file(entry.is_file, entry.name.as_slice()) {
                note_count += 1;
            } else if entry.is_dir {
                folder_count += 1;
            }
        }
        i += 1;
    }
    proof {
        assert(entries@.take(entries@.len() as int) =~= entries@);
    }
    FolderStats { note_count, folder_count }
}

/// Whether a walk came to a folder that is listed: one below the vault root.
pub fn is_listed_folder(at_root: bool, is_dir: bool) -> (r: bool)
    ensures
        r == (is_dir && !at_root),
{
    is_dir && !at_root
}

/// The folders that a walk through the vault found, in the order of their paths.
pub fn list_folders(found: Vec<String>) -> (r: Vec<String>)
    ensures
        r@ == ordering::sorted(found@),
{
    ordering::sort(found)
}

proof fn lemma_paths_split(entries: Seq<FolderEntry>, folder: Seq<char>)
    ensures
        paths_of(entries, folder, true).len() + paths_of(entries, folder, false).len()
            == entries.len(),
    decreases entries.len(),
{
    if entries.len() > 0 {
        lemma_paths_split(entries.drop_last(), folder);
    }
}

proof fn lemma_paths_concat(a: Seq<FolderEntry>, b: Seq<FolderEntry>, folder: Seq<char>, dirs: bool)
    ensures
        paths_of(a + b, folder, dirs) == paths_of(a, folder, dirs) + paths_of(b, folder, dirs),
    decreases b.len(),
{
    if b.len() == 0 {
        assert(a + b =~= a);
        assert(paths_of(a, folder, dirs) + Seq::<Seq<char>>::empty() =~= paths_of(a, folder, dirs));
    } else {
        lemma_paths_concat(a, b.drop_last(), folder, dirs);
        assert((a + b).drop_last() =~= a + b.drop_last());
        assert((a + b).last() == b.last());
        assert(paths_of(a + b, folder, dirs) =~= paths_of(a, folder, dirs) + paths_of(
            b,
            folder,
            dirs,
        ));
    }
}

/// A page never holds more than `limit` notes and folders, and a page with more behind it holds
/// just as many.
pub proof fn law_page_size(items: Seq<FolderEntry>, folder: Seq<char>, offset: int, limit: int)
    requires
        0 <= offset,
        0 <= limit,
    ensures
        ({
            let (start, end) = page_bounds(offset, limit, items.len() as int);
            let page = items.subrange(start, end);
            let count = paths_of(page, folder, true).len() + paths_of(page, folder, false).len();
            &&& count <= limit
            &&& end < items.len() ==> count == limit
        }),
{
    let (start, end) = page_bounds(offset, limit, items.len() as int);
    lemma_paths_split(items.subrange(start, end), folder);
}

/// A page and the page that begins where it ends hold together what one page of both sizes holds.
pub proof fn law_pages_follow(
    items: Seq<FolderEntry>,
    folder: Seq<char>,
    offset: int,
    first: int,
    second: int,
    dirs: bool,
)
    requires
        0 <= offset,
        0 <= first,
        0 <= second,
    ensures
        ({
            let total = items.len() as int;
            let (a, b) = page_bounds(offset, first, total);
            let (c, d) = page_bounds(offset + first, second, total);
            let (e, f) = page_bounds(offset, first + second, total);
            paths_of(items.subrange(a, b), folder, dirs) + paths_of(
                items.subrange(c, d),
                folder,
                dirs,
            ) == paths_of(items.subrange(e, f), folder, dirs)
        }),
{
    let total = items.len() as int;
    let (a, b) = page_bounds(offset, first, total);
    let (c, d) = page_bounds(offset + first, second, total);
    let (e, f) = page_bounds(offset, first + second, total);
    let one = items.subrange(a, b);
    let two = items.subrange(c, d);
    assert(one + two =~= items.subrange(e, f));
    lemma_paths_concat(one, two, folder, dirs);
}

} // verus!
