use crate::folder_cache;
use crate::folder_cache::{FolderCacheEntry, FolderEntry};
use crate::folder_listing;
use crate::folder_listing::{ScannedEntry, WalkedEntry};
use crate::link_path;
use crate::note_meta::NoteMeta;
use crate::ordering;
use crate::ordering::Ordered;
use crate::path_laws;
use crate::text;
use crate::text_laws::{ascending, lemma_ascending_push};
use crate::vault_laws;
use vstd::prelude::*;

verus! {

/// A new folder cannot have a name with a slash or a backslash in it or a dot at its start, and any
/// other name it can have.
pub proof fn law_folder_name(name: Seq<char>)
    ensures
        folder_listing::bad_folder_name(name) <==> (name.len() > 0 && name[0] == '.') || exists|k:
            int|
            0 <= k < name.len() && (#[trigger] name[k] == '/' || name[k] == '\\'),
{
    if name.contains('/') {
        let k = choose|k: int| 0 <= k < name.len() && name[k] == '/';
        assert(name[k] == '/');
    }
    if name.contains('\\') {
        let k = choose|k: int| 0 <= k < name.len() && name[k] == '\\';
        assert(name[k] == '\\');
    }
}

/// Whether a name ends in `.md`.
pub open spec fn ends_in_md(name: Seq<char>) -> bool {
    &&& name.len() >= 3
    &&& name[name.len() - 3] == '.'
    &&& name[name.len() - 2] == 'm'
    &&& name[name.len() - 1] == 'd'
}

/// Whether a look into a folder came to something that is listed: a directory, or a file whose name
/// ends in `.md`, which is not left out.
pub open spec fn is_listed(found: Result<ScannedEntry, String>) -> bool {
    found matches Ok(entry) && !entry.excluded && (entry.is_dir matches Ok(is_dir) && (is_dir
        || ends_in_md(entry.name@)))
}

/// Whether a look into a folder came to an error.
pub open spec fn fails_with(found: Result<ScannedEntry, String>, error: String) -> bool {
    match found {
        Ok(entry) => !entry.excluded && entry.is_dir == Err::<bool, String>(error),
        Err(e) => e == error,
    }
}

proof fn lemma_md_name(name: Seq<char>)
    ensures
        folder_listing::md_name(name) <==> ends_in_md(name),
{
    reveal_strlit(".md");
    let n = name.len() as int;
    if n >= 3 {
        let tail = name.skip(n - 3);
        assert(tail[0] == name[n - 3] && tail[1] == name[n - 2] && tail[2] == name[n - 1]);
        if ends_in_md(name) {
            assert(tail =~= ".md"@);
        }
    }
}

/// What is listed of a folder, if no error came up: each note and each folder that is not left out,
/// once and as it was found.
pub proof fn law_folder_entries(found: Seq<Result<ScannedEntry, String>>, n: int) -> (places: Seq<int>)
    requires
        0 <= n <= found.len(),
        forall|i: int, e: String| 0 <= i < n ==> !(#[trigger] fails_with(found[i], e)),
    ensures
        ascending(places, n),
        forall|i: int| 0 <= i < n ==> (#[trigger] is_listed(found[i]) <==> places.contains(i)),
        match folder_listing::entries_among(found, n) {
            Ok(entries) => {
                &&& entries.len() == places.len()
                &&& forall|k: int|
                    0 <= k < places.len() ==> {
                        let entry = found[places[k]]->Ok_0;
                        &&& (#[trigger] entries[k]).name@ == entry.name@
                        &&& entry.is_dir == Ok::<bool, String>(entries[k].is_dir)
                    }
            },
            Err(_) => false,
        },
    decreases n,
{
    if n == 0 {
        Seq::empty()
    } else {
        let old = law_folder_entries(found, n - 1);
        lemma_ascending_push(old, n - 1);
        let before = folder_listing::entries_among(found, n - 1)->Ok_0;
        match found[n - 1] {
            Ok(entry) => {
                lemma_md_name(entry.name@);
                if let Err(e) = entry.is_dir {
                    assert(!fails_with(found[n - 1], e));
                }
            },
            Err(e) => {
                assert(!fails_with(found[n - 1], e));
            },
        }
        let places = if is_listed(found[n - 1]) {
            old.push(n - 1)
        } else {
            old
        };
        assert forall|i: int| 0 <= i < n implies (#[trigger] is_listed(found[i])
            <==> places.contains(i)) by {
            text::lemma_push_contains(old, n - 1, i);
        }
        let entries = folder_listing::entries_among(found, n)->Ok_0;
        assert forall|k: int| 0 <= k < places.len() implies {
            let entry = found[places[k]]->Ok_0;
            &&& (#[trigger] entries[k]).name@ == entry.name@
            &&& entry.is_dir == Ok::<bool, String>(entries[k].is_dir)
        } by {
            if k < old.len() {
                assert(before[k] == entries[k]);
            }
        }
        places
    }
}

/// The first error that comes up in a look into a folder is what the look comes to.
pub proof fn law_first_error_is_told(
    found: Seq<Result<ScannedEntry, String>>,
    n: int,
    at: int,
    error: String,
)
    requires
        0 <= at < n <= found.len(),
        fails_with(found[at], error),
        forall|i: int, e: String| 0 <= i < at ==> !(#[trigger] fails_with(found[i], e)),
    ensures
        folder_listing::entries_among(found, n) == Err::<Seq<FolderEntry>, String>(error),
    decreases n,
{
    if n == at + 1 {
        let places = law_folder_entries(found, at);
    } else {
        law_first_error_is_told(found, n - 1, at, error);
    }
}

/// Folders are listed before notes. Within each the order is that of the names in lower case, and
/// where these are the same, that of the names.
pub proof fn law_listing_order(a: FolderEntry, b: FolderEntry)
    ensures
        a.is_dir && !b.is_dir ==> a.before(b) && !b.before(a),
        a.is_dir == b.is_dir && text::text_less(
            text::ascii_lower(a.name@),
            text::ascii_lower(b.name@),
        ) ==> a.before(b) && !b.before(a),
        a.is_dir == b.is_dir && text::ascii_lower(a.name@) == text::ascii_lower(b.name@) ==> (
        a.before(b) <==> text::text_less(a.name@, b.name@)),
{
    let x = text::ascii_lower(a.name@);
    let y = text::ascii_lower(b.name@);
    text::lemma_text_less_strict(x);
    if text::text_less(x, y) && text::text_less(y, x) {
        text::lemma_text_less_chain(x, y, x);
    }
}

/// Notes are in the order of their paths, and folders too.
pub proof fn law_path_order(a: NoteMeta, b: NoteMeta, p: String, q: String)
    ensures
        a.before(b) <==> text::text_less(a.path@, b.path@),
        p.before(q) <==> text::text_less(p@, q@),
{
}

proof fn lemma_placed_at<T: Ordered>(s: Seq<T>, x: T) -> (k: int)
    ensures
        0 <= k <= s.len(),
        ordering::placed(s, x) == s.insert(k, x),
        forall|i: int| k <= i < s.len() ==> x.before(#[trigger] s[i]),
        k > 0 ==> !x.before(s[k - 1]),
    decreases s.len(),
{
    if s.len() == 0 || !x.before(s.last()) {
        assert(s.insert(s.len() as int, x) =~= s.push(x));
        s.len() as int
    } else {
        let front = s.drop_last();
        let k = lemma_placed_at(front, x);
        assert(s.insert(k, x) =~= front.insert(k, x).push(s.last()));
        assert forall|i: int| k <= i < s.len() implies x.before(#[trigger] s[i]) by {
            if i < front.len() {
                assert(front[i] == s[i]);
            }
        }
        k
    }
}

/// Sorting puts each value in one place; of two values the one before comes before the other, or
/// neither does and it stood before the other already.
pub proof fn law_sorting_is_stable<T: Ordered>(s: Seq<T>) -> (from: Seq<int>)
    ensures
        from.len() == s.len(),
        ordering::sorted(s).len() == s.len(),
        forall|i: int|
            0 <= i < s.len() ==> 0 <= #[trigger] from[i] < s.len() && ordering::sorted(s)[i]
                == s[from[i]],
        forall|i: int, j: int|
            0 <= i < j < s.len() ==> #[trigger] from[i] != #[trigger] from[j] && (s[from[i]].before(
                s[from[j]],
            ) || (!s[from[j]].before(s[from[i]]) && from[i] < from[j])),
    decreases s.len(),
{
    if s.len() == 0 {
        Seq::empty()
    } else {
        let front = s.drop_last();
        let n = front.len() as int;
        let x = s.last();
        let old = law_sorting_is_stable(front);
        let inner = ordering::sorted(front);
        let k = lemma_placed_at(inner, x);
        let from = old.insert(k, n);
        let all = ordering::sorted(s);
        assert forall|i: int| 0 <= i < s.len() implies 0 <= #[trigger] from[i] < s.len() && all[i]
            == s[from[i]] by {
            if i < k {
                assert(from[i] == old[i]);
            } else if i > k {
                assert(from[i] == old[i - 1]);
            }
        }
        assert forall|i: int, j: int| 0 <= i < j < s.len() implies #[trigger] from[i]
            != #[trigger] from[j] && (s[from[i]].before(s[from[j]]) || (!s[from[j]].before(
            s[from[i]],
        ) && from[i] < from[j])) by {
            let a = if i < k {
                i
            } else {
                i - 1
            };
            let b = if j < k {
                j
            } else {
                j - 1
            };
            if i != k {
                assert(from[i] == old[a]);
                assert(inner[a] == front[old[a]]);
            }
            if j != k {
                assert(from[j] == old[b]);
                assert(inner[b] == front[old[b]]);
            }
            if i != k && j != k {
                assert(old[a] != old[b]);
            } else if i == k {
                assert(x.before(inner[b]));
            } else if i < k - 1 {
                assert(inner[k - 1] == front[old[k - 1]]);
                assert(old[i] != old[k - 1]);
                if inner[i].before(inner[k - 1]) {
                    if inner[k - 1].before(inner[i]) {
                        T::before_is_transitive(inner[i], inner[k - 1], inner[i]);
                        T::before_is_strict(inner[i]);
                    }
                }
                T::rank_is_transitive(x, inner[k - 1], inner[i]);
            }
        }
        from
    }
}

/// What lies in a folder has the path of the folder, a slash and its name; what lies in the vault
/// root has its name as its path. The folder is then the directory of that path.
pub proof fn law_path_in(folder: Seq<char>, name: Seq<char>)
    ensures
        folder.len() > 0 ==> folder_listing::path_in(folder, name) == folder + seq!['/'] + name,
        folder_listing::path_in(Seq::empty(), name) == name,
        !name.contains('/') ==> link_path::parent_of(folder_listing::path_in(folder, name))
            == folder,
{
    reveal_strlit("/");
    assert("/"@ =~= seq!['/']);
    if !name.contains('/') {
        path_laws::law_parent(folder, name);
        if folder.len() == 0 {
            assert(folder =~= Seq::<char>::empty());
        }
    }
}

/// The paths of a page are those of its folders, or those of its notes, in the order of the page.
pub proof fn law_page_paths(entries: Seq<FolderEntry>, folder: Seq<char>, dirs: bool) -> (places: Seq<
    int,
>)
    ensures
        ascending(places, entries.len() as int),
        forall|i: int|
            0 <= i < entries.len() ==> ((#[trigger] entries[i]).is_dir == dirs <==> places.contains(
                i,
            )),
        folder_listing::paths_of(entries, folder, dirs).len() == places.len(),
        forall|k: int|
            0 <= k < places.len() ==> #[trigger] folder_listing::paths_of(entries, folder, dirs)[k]
                == folder_listing::path_in(folder, entries[places[k]].name@),
    decreases entries.len(),
{
    if entries.len() == 0 {
        Seq::empty()
    } else {
        let front = entries.drop_last();
        let n = front.len() as int;
        let old = law_page_paths(front, folder, dirs);
        lemma_ascending_push(old, n);
        let places = if entries[n].is_dir == dirs {
            old.push(n)
        } else {
            old
        };
        assert forall|i: int| 0 <= i < entries.len() implies ((#[trigger] entries[i]).is_dir == dirs
            <==> places.contains(i)) by {
            text::lemma_push_contains(old, n, i);
            if i < n {
                assert(front[i] == entries[i]);
            }
        }
        assert forall|k: int| 0 <= k < places.len() implies #[trigger] folder_listing::paths_of(
            entries,
            folder,
            dirs,
        )[k] == folder_listing::path_in(folder, entries[places[k]].name@) by {
            if k < old.len() {
                assert(front[old[k]] == entries[old[k]]);
                assert(folder_listing::paths_of(front, folder, dirs)[k] == folder_listing::paths_of(
                    entries,
                    folder,
                    dirs,
                )[k]);
            }
        }
        places
    }
}

/// A page of at most `limit` entries from `offset` on holds just the entries at the places from
/// `offset` on to, but without, `offset + limit`, as far as there are any.
pub proof fn law_page_holds_its_places(offset: int, limit: int, total: int, k: int)
    requires
        0 <= offset,
        0 <= limit,
        0 <= k < total,
    ensures
        ({
            let (start, end) = folder_listing::page_bounds(offset, limit, total);
            &&& 0 <= start <= end <= total
            &&& start <= k < end <==> offset <= k < offset + limit
            &&& end < total <==> offset + limit < total
        }),
{
}

/// Whether a walk below a folder came to a note: a file below it whose name is at least one byte and
/// `.md`.
pub open spec fn walked_to_note(entry: WalkedEntry) -> bool {
    let name = entry.name@;
    let n = name.len() as int;
    !entry.at_root && entry.is_file && n >= 4 && name[n - 3] == 0x2e && name[n - 2] == 0x6d
        && name[n - 1] == 0x64
}

/// Each note and each folder that a walk below a folder comes to is counted once, and nothing else.
pub proof fn law_folder_stats(entries: Seq<WalkedEntry>) -> (r: (Seq<int>, Seq<int>))
    ensures
        ascending(r.0, entries.len() as int),
        ascending(r.1, entries.len() as int),
        forall|i: int|
            0 <= i < entries.len() ==> (#[trigger] walked_to_note(entries[i]) <==> r.0.contains(i)),
        forall|i: int|
            0 <= i < entries.len() ==> (!(#[trigger] walked_to_note(entries[i]))
                && !entries[i].at_root && entries[i].is_dir <==> r.1.contains(i)),
        folder_listing::notes_among(entries) == r.0.len(),
        folder_listing::folders_among(entries) == r.1.len(),
    decreases entries.len(),
{
    if entries.len() == 0 {
        (Seq::empty(), Seq::empty())
    } else {
        let front = entries.drop_last();
        let n = front.len() as int;
        let (notes, folders) = law_folder_stats(front);
        lemma_ascending_push(notes, n);
        lemma_ascending_push(folders, n);
        vault_laws::law_note_file_name(entries[n].name@);
        let all_notes = if walked_to_note(entries[n]) {
            notes.push(n)
        } else {
            notes
        };
        let all_folders = if !walked_to_note(entries[n]) && !entries[n].at_root
            && entries[n].is_dir {
            folders.push(n)
        } else {
            folders
        };
        assert forall|i: int| 0 <= i < entries.len() implies (#[trigger] walked_to_note(entries[i])
            <==> all_notes.contains(i)) && (!walked_to_note(entries[i]) && !entries[i].at_root
            && entries[i].is_dir <==> all_folders.contains(i)) by {
            text::lemma_push_contains(notes, n, i);
            text::lemma_push_contains(folders, n, i);
            if i < n {
                assert(front[i] == entries[i]);
                assert(walked_to_note(front[i]) <==> notes.contains(i));
            }
        }
        (all_notes, all_folders)
    }
}

/// The key of a folder in the cache: the vault, a colon and the path of the folder. Two folders of
/// vaults whose names hold no colon have the same key only if they are the same.
pub proof fn law_cache_key(
    vault: Seq<char>,
    folder: Seq<char>,
    other_vault: Seq<char>,
    other_folder: Seq<char>,
)
    ensures
        folder_cache::cache_key(vault, folder) == vault + seq![':'] + folder,
        !vault.contains(':') && !other_vault.contains(':') && folder_cache::cache_key(vault, folder)
            == folder_cache::cache_key(other_vault, other_folder) ==> vault == other_vault && folder
            == other_folder,
{
    reveal_strlit(":");
    assert(":"@ =~= seq![':']);
    let a = vault + seq![':'] + folder;
    let b = other_vault + seq![':'] + other_folder;
    assert(folder_cache::cache_key(vault, folder) =~= a);
    assert(folder_cache::cache_key(other_vault, other_folder) =~= b);
    if !vault.contains(':') && !other_vault.contains(':') && a == b {
        let n = vault.len() as int;
        let m = other_vault.len() as int;
        assert(a[n] == ':');
        assert(b[m] == ':');
        if n < m {
            assert(b[n] == other_vault[n]);
        } else if m < n {
            assert(a[m] == vault[m]);
        }
        assert(a.take(n) =~= vault);
        assert(b.take(n) =~= other_vault);
        assert(a.skip(n + 1) =~= folder);
        assert(b.skip(n + 1) =~= other_folder);
    }
}

/// An entry of the cache is used just until thirty seconds after it was made; those that can be used
/// stay as they are, and the others go.
pub proof fn law_entries_expire(
    cache: Map<Seq<char>, FolderCacheEntry>,
    now: u64,
    key: Seq<char>,
)
    ensures
        folder_cache::usable_entries(cache, now).contains_key(key) <==> cache.contains_key(key)
            && now < cache[key].cached_at + 30_000_000_000,
        folder_cache::usable_entries(cache, now).contains_key(key)
            ==> folder_cache::usable_entries(cache, now)[key] == cache[key],
{
}

/// The cache keeps all of up to 64 entries, and 64 of more; an entry goes only if no entry that stays
/// was asked for before it.
pub proof fn law_cache_keeps_the_latest(
    before: Map<Seq<char>, FolderCacheEntry>,
    after: Map<Seq<char>, FolderCacheEntry>,
    gone: Seq<char>,
    kept: Seq<char>,
)
    requires
        folder_cache::oldest_removed(before, after),
        after.len() == folder_cache::bounded(before.len()),
    ensures
        before.len() <= 64 ==> after.len() == before.len(),
        before.len() > 64 ==> after.len() == 64,
        after.contains_key(kept) ==> before.contains_key(kept) && after[kept] == before[kept],
        after.contains_key(kept) && before.contains_key(gone) && !after.contains_key(gone)
            ==> before[gone].last_accessed <= before[kept].last_accessed,
{
}

} // verus!
