use crate::string_map::StringMap;
use crate::text;
use vstd::prelude::*;

verus! {

/// What the index knows of a note.
#[derive(Debug, PartialEq, Eq)]
pub struct IndexNoteMeta {
    pub id: String,
    pub path: String,
    pub title: String,
    pub name: String,
    pub mtime_ms: i64,
    pub size_bytes: i64,
}

/// What the index knows of a note, as texts.
pub struct IndexNoteView {
    pub id: Seq<char>,
    pub path: Seq<char>,
    pub title: Seq<char>,
    pub name: Seq<char>,
    pub mtime_ms: i64,
    pub size_bytes: i64,
}

impl View for IndexNoteMeta {
    type V = IndexNoteView;

    open spec fn view(&self) -> IndexNoteView {
        IndexNoteView {
            id: self.id@,
            path: self.path@,
            title: self.title@,
            name: self.name@,
            mtime_ms: self.mtime_ms,
            size_bytes: self.size_bytes,
        }
    }
}

impl Clone for IndexNoteMeta {
    fn clone(&self) -> (r: Self)
        ensures
            r == *self,
    {
        IndexNoteMeta {
            id: self.id.clone(),
            path: self.path.clone(),
            title: self.title.clone(),
            name: self.name.clone(),
            mtime_ms: self.mtime_ms,
            size_bytes: self.size_bytes,
        }
    }
}

/// A link to a note that does not exist, and how often it occurs.
#[derive(Debug, Clone, PartialEq, Eq)]
pub struct OrphanLink {
    pub target_path: String,
    pub ref_count: i64,
}

/// The notes that lead to a note, those that it leads to, and its links to missing notes.
#[derive(Debug)]
pub struct NoteLinksSnapshot {
    pub backlinks: Vec<IndexNoteMeta>,
    pub outlinks: Vec<IndexNoteMeta>,
    pub orphan_links: Vec<OrphanLink>,
}

/// A search query: as it was typed, the text to search for, and where to search.
#[derive(Debug)]
pub struct SearchQueryInput<S> {
    pub raw: String,
    pub text: String,
    pub scope: S,
}

/// What is told about a run of the indexer.
#[derive(Debug, Clone, PartialEq, Eq)]
pub enum IndexProgressEvent {
    Started { vault_id: String, total: usize },
    Progress { vault_id: String, indexed: usize, total: usize },
    Completed { vault_id: String, indexed: usize, elapsed_ms: u64 },
    Failed { vault_id: String, error: String },
}

/// A command to the writer of the index. `P` is how a vault root is given, `J` what a run of the
/// indexer needs; `R` and `N` are where the answer goes.
#[derive(Debug)]
pub enum DbCommand<P, J, R, N> {
    UpsertNote { vault_root: P, note_id: String, reply: R },
    RemoveNote { note_id: String, reply: R },
    RemoveNotes { note_ids: Vec<String>, reply: R },
    RemoveNotesByPrefix { prefix: String, reply: R },
    Rebuild(J),
    Sync(J),
    RenamePaths { old_prefix: String, new_prefix: String, reply: N },
    RenamePath { old_path: String, new_path: String, reply: R },
    Shutdown,
}

/// Whether the writer goes on after a command.
#[derive(Debug, Clone, Copy, PartialEq, Eq, Structural)]
pub enum LoopAction {
    Continue,
    Break,
}

/// What came of the outside part of a command.
#[derive(Debug)]
pub enum DbOutcome {
    /// It failed, or there is nothing to take over.
    Failed,
    /// The database did what was asked.
    Done,
    /// The database renamed this many notes.
    Renamed(usize),
    /// The notes as the database has them after a run of the indexer.
    Reloaded(StringMap<IndexNoteMeta>),
}

/// The notes of a cache, as texts.
pub open spec fn note_views(cache: Map<Seq<char>, IndexNoteMeta>) -> Map<
    Seq<char>,
    IndexNoteView,
> {
    Map::new(|k: Seq<char>| cache.contains_key(k), |k: Seq<char>| cache[k]@)
}

/// `cache` without `keys`.
pub open spec fn without_keys(
    cache: Map<Seq<char>, IndexNoteView>,
    keys: Seq<Seq<char>>,
) -> Map<Seq<char>, IndexNoteView> {
    Map::new(
        |k: Seq<char>| cache.contains_key(k) && !keys.contains(k),
        |k: Seq<char>| cache[k],
    )
}

/// `cache` without the keys that begin with `prefix`.
pub open spec fn without_prefix(
    cache: Map<Seq<char>, IndexNoteView>,
    prefix: Seq<char>,
) -> Map<Seq<char>, IndexNoteView> {
    Map::new(
        |k: Seq<char>| cache.contains_key(k) && !prefix.is_prefix_of(k),
        |k: Seq<char>| cache[k],
    )
}

/// Those of `keys` that begin with `prefix`, in their order.
pub open spec fn with_prefix(keys: Seq<Seq<char>>, prefix: Seq<char>) -> Seq<Seq<char>>
    decreases keys.len(),
{
    if keys.len() == 0 {
        Seq::empty()
    } else if prefix.is_prefix_of(keys.last()) {
        with_prefix(keys.drop_last(), prefix).push(keys.last())
    } else {
        with_prefix(keys.drop_last(), prefix)
    }
}

/// The note `note` at `path`.
pub open spec fn moved_to(note: IndexNoteView, path: Seq<char>) -> IndexNoteView {
    IndexNoteView { id: path, path, ..note }
}

/// `cache` with the note at `from`, if there is one, moved to `to`.
pub open spec fn with_moved(
    cache: Map<Seq<char>, IndexNoteView>,
    from: Seq<char>,
    to: Seq<char>,
) -> Map<Seq<char>, IndexNoteView> {
    if cache.contains_key(from) {
        cache.remove(from).insert(to, moved_to(cache[from], to))
    } else {
        cache
    }
}

/// `path` with its prefix `old` replaced by `new`.
pub open spec fn reprefixed(path: Seq<char>, old: Seq<char>, new: Seq<char>) -> Seq<char> {
    new + path.skip(old.len() as int)
}

/// `cache` with the notes at `keys` moved, one after the other, from below `old` to below `new`.
pub open spec fn with_renamed(
    cache: Map<Seq<char>, IndexNoteView>,
    keys: Seq<Seq<char>>,
    old: Seq<char>,
    new: Seq<char>,
) -> Map<Seq<char>, IndexNoteView>
    decreases keys.len(),
{
    if keys.len() == 0 {
        cache
    } else {
        with_moved(
            with_renamed(cache, keys.drop_last(), old, new),
            keys.last(),
            reprefixed(keys.last(), old, new),
        )
    }
}

/// The notes of the cache after `cmd`, of which `outcome` came. `keys` are the keys of the cache
/// in their order.
pub open spec fn cache_after<P, J, R, N>(
    cmd: DbCommand<P, J, R, N>,
    outcome: DbOutcome,
    cache: Map<Seq<char>, IndexNoteView>,
    keys: Seq<Seq<char>>,
) -> Map<Seq<char>, IndexNoteView> {
    match (cmd, outcome) {
        (DbCommand::RemoveNote { note_id, reply }, DbOutcome::Done) => cache.remove(note_id@),
        (DbCommand::RemoveNotes { note_ids, reply }, DbOutcome::Done) => without_keys(
            cache,
            text::texts(note_ids@),
        ),
        (DbCommand::RemoveNotesByPrefix { prefix, reply }, DbOutcome::Done) => without_prefix(
            cache,
            prefix@,
        ),
        (DbCommand::RenamePaths { old_prefix, new_prefix, reply }, DbOutcome::Renamed(count)) => {
            if count > 0 {
                with_renamed(cache, with_prefix(keys, old_prefix@), old_prefix@, new_prefix@)
            } else {
                cache
            }
        },
        (DbCommand::RenamePath { old_path, new_path, reply }, DbOutcome::Done) => with_moved(
            cache,
            old_path@,
            new_path@,
        ),
        (DbCommand::Rebuild(job), DbOutcome::Reloaded(map)) => note_views(map@),
        (DbCommand::Sync(job), DbOutcome::Reloaded(map)) => note_views(map@),
        _ => cache,
    }
}

/// Takes the notes at `ids` out of the cache.
fn remove_all(cache: &mut StringMap<IndexNoteMeta>, ids: &Vec<String>)
    ensures
        note_views(final(cache)@) == without_keys(note_views(old(cache)@), text::texts(ids@)),
{
    let ghost start = note_views(cache@);
    let ghost all = text::texts(ids@);
    let mut i: usize = 0;
    proof {
        assert(all.take(0) =~= Seq::<Seq<char>>::empty());
        assert(without_keys(start, all.take(0)) =~= start);
    }
    while i < ids.len()
        invariant
            i <= ids@.len(),
            all == text::texts(ids@),
            note_views(cache@) == without_keys(start, all.take(i as int)),
        decreases ids.len() - i,
    {
        let ghost before = cache@;
        cache.remove(ids[i].as_str());
        proof {
            assert(note_views(cache@) =~= note_views(before).remove(all[i as int]));
            assert(all.take(i + 1) =~= all.take(i as int).push(all[i as int]));
            assert forall|k: Seq<char>| #[trigger]
                all.take(i + 1).contains(k) <==> all.take(i as int).contains(k) || k
                    == all[i as int] by {
                text::lemma_push_contains(all.take(i as int), all[i as int], k);
            }
            assert(without_keys(start, all.take(i + 1)) =~= without_keys(
                start,
                all.take(i as int),
            ).remove(all[i as int]));
        }
        i += 1;
    }
    proof {
        assert(all.take(ids@.len() as int) =~= all);
    }
}

proof fn lemma_with_prefix(keys: Seq<Seq<char>>, prefix: Seq<char>, k: Seq<char>)
    ensures
        with_prefix(keys, prefix).contains(k) <==> keys.contains(k) && prefix.is_prefix_of(k),
    decreases keys.len(),
{
    if keys.len() > 0 {
        let front = keys.drop_last();
        lemma_with_prefix(front, prefix, k);
        text::lemma_push_contains(front, keys.last(), k);
        text::lemma_push_contains(with_prefix(front, prefix), keys.last(), k);
        assert(front.push(keys.last()) =~= keys);
    }
}

/// The keys of the cache that begin with `prefix`, in their order.
fn keys_with_prefix(cache: &StringMap<IndexNoteMeta>, prefix: &str) -> (r: Vec<String>)
    ensures
        text::texts(r@) == with_prefix(cache.keys(), prefix@),
        forall|k: Seq<char>| #[trigger] cache@.contains_key(k) <==> cache.keys().contains(k),
{
    let n = cache.len();
    let wanted = text::chars_of(prefix);
    let mut out: Vec<String> = Vec::new();
    let ghost keys = cache.keys();
    let mut i: usize = 0;
    proof {
        assert(keys.take(0) =~= Seq::<Seq<char>>::empty());
        assert(text::texts(out@) =~= Seq::<Seq<char>>::empty());
    }
    while i < n
        invariant
            i <= n,
            n == keys.len(),
            keys == cache.keys(),
            wanted@ == prefix@,
            text::texts(out@) == with_prefix(keys.take(i as int), prefix@),
        decreases n - i,
    {
        let key = cache.key_at(i);
        let chars = text::chars_of(key.as_str());
        let ghost before = out@;
        proof {
            assert(keys.take(i + 1).drop_last() =~= keys.take(i as int));
            assert(keys.take(i + 1).last() == key@);
        }
        if text::has_prefix(chars.as_slice(), wanted.as_slice()) {
            out.push(key.clone());
            assert(text::texts(out@) =~= text::texts(before).push(key@));
        }
        i += 1;
    }
    proof {
        assert(keys.take(keys.len() as int) =~= keys);
    }
    out
}

/// Moves the note at `from`, if there is one, to `to`.
fn move_note(cache: &mut StringMap<IndexNoteMeta>, from: &str, to: &str)
    ensures
        note_views(final(cache)@) == with_moved(note_views(old(cache)@), from@, to@),
{
    let ghost start = cache@;
    match cache.remove(from) {
        Some(meta) => {
            let moved = IndexNoteMeta {
                id: to.to_owned(),
                path: to.to_owned(),
                title: meta.title,
                name: meta.name,
                mtime_ms: meta.mtime_ms,
                size_bytes: meta.size_bytes,
            };
            cache.insert(to.to_owned(), moved);
            proof {
                assert(note_views(cache@) =~= with_moved(note_views(start), from@, to@));
            }
        },
        None => {
            proof {
                assert(start.remove(from@) =~= start);
            }
        },
    }
}

/// Moves the notes at `keys` from below `old_prefix` to below `new_prefix`.
fn move_all(
    cache: &mut StringMap<IndexNoteMeta>,
    keys: &Vec<String>,
    old_prefix: &str,
    new_prefix: &str,
)
    requires
        forall|i: int| 0 <= i < keys@.len() ==> old_prefix@.is_prefix_of(#[trigger] keys@[i]@),
    ensures
        note_views(final(cache)@) == with_renamed(
            note_views(old(cache)@),
            text::texts(keys@),
            old_prefix@,
            new_prefix@,
        ),
{
    let ghost start = note_views(cache@);
    let ghost all = text::texts(keys@);
    let skip = text::chars_of(old_prefix).len();
    let mut i: usize = 0;
    proof {
        assert(all.take(0) =~= Seq::<Seq<char>>::empty());
    }
    while i < keys.len()
        invariant
            i <= keys@.len(),
            all == text::texts(keys@),
            skip == old_prefix@.len(),
            forall|i: int| 0 <= i < keys@.len() ==> old_prefix@.is_prefix_of(#[trigger] keys@[i]@),
            note_views(cache@) == with_renamed(
                start,
                all.take(i as int),
                old_prefix@,
                new_prefix@,
            ),
        decreases keys.len() - i,
    {
        let chars = text::chars_of(keys[i].as_str());
        assert(old_prefix@.is_prefix_of(keys@[i as int]@));
        let mut path = text::chars_of(new_prefix);
        let tail = vstd::slice::slice_subrange(chars.as_slice(), skip, chars.len());
        text::append(&mut path, tail);
        let new_path = text::string_of(path.as_slice());
        proof {
            assert(tail@ =~= all[i as int].skip(old_prefix@.len() as int));
            assert(all.take(i + 1).drop_last() =~= all.take(i as int));
            assert(all.take(i + 1).last() == all[i as int]);
        }
        move_note(cache, keys[i].as_str(), new_path.as_str());
        i += 1;
    }
    proof {
        assert(all.take(keys@.len() as int) =~= all);
    }
}

/// Takes over into the cache what came of a command, and says whether the writer goes on.
pub fn dispatch_command<P, J, R, N>(
    cmd: &DbCommand<P, J, R, N>,
    outcome: DbOutcome,
    notes_cache: &mut StringMap<IndexNoteMeta>,
) -> (r: LoopAction)
    ensures
        r == (if *cmd is Shutdown {
            LoopAction::Break
        } else {
            LoopAction::Continue
        }),
        note_views(final(notes_cache)@) == cache_after(
            *cmd,
            outcome,
            note_views(old(notes_cache)@),
            old(notes_cache).keys(),
        ),
{
    let ghost start = note_views(notes_cache@);
    let ghost keys = notes_cache.keys();
    match (cmd, outcome) {
        (DbCommand::RemoveNote { note_id, .. }, DbOutcome::Done) => {
            let ghost before = notes_cache@;
            notes_cache.remove(note_id.as_str());
            assert(note_views(notes_cache@) =~= note_views(before).remove(note_id@));
        },
        (DbCommand::RemoveNotes { note_ids, .. }, DbOutcome::Done) => {
            remove_all(notes_cache, note_ids);
        },
        (DbCommand::RemoveNotesByPrefix { prefix, .. }, DbOutcome::Done) => {
            let matching = keys_with_prefix(notes_cache, prefix.as_str());
            remove_all(notes_cache, &matching);
            proof {
                assert forall|k: Seq<char>| start.contains_key(k) implies (
                with_prefix(keys, prefix@).contains(k) <==> prefix@.is_prefix_of(k)) by {
                    lemma_with_prefix(keys, prefix@, k);
                }
                assert(note_views(notes_cache@) =~= without_prefix(start, prefix@));
            }
        },
        (DbCommand::RenamePaths { old_prefix, new_prefix, .. }, DbOutcome::Renamed(count)) => {
            if count > 0 {
                let old_keys = keys_with_prefix(notes_cache, old_prefix.as_str());
                proof {
                    assert forall|i: int|
                        0 <= i < old_keys@.len() implies old_prefix@.is_prefix_of(
                        #[trigger] old_keys@[i]@,
                    ) by {
                        let k = text::texts(old_keys@)[i];
                        assert(text::texts(old_keys@).contains(k));
                        lemma_with_prefix(keys, old_prefix@, k);
                    }
                }
                move_all(notes_cache, &old_keys, old_prefix.as_str(), new_prefix.as_str());
            }
        },
        (DbCommand::RenamePath { old_path, new_path, .. }, DbOutcome::Done) => {
            move_note(notes_cache, old_path.as_str(), new_path.as_str());
        },
        (DbCommand::Rebuild(_), DbOutcome::Reloaded(map)) => {
            *notes_cache = map;
        },
        (DbCommand::Sync(_), DbOutcome::Reloaded(map)) => {
            *notes_cache = map;
        },
        (DbCommand::Shutdown, _) => {
            return LoopAction::Break;
        },
        _ => {},
    }
    LoopAction::Continue
}

/// Whether one of the notes at `keys` comes to `path` when the paths below `old` become paths below
/// `new`.
pub open spec fn is_new_path(
    path: Seq<char>,
    keys: Seq<Seq<char>>,
    old: Seq<char>,
    new: Seq<char>,
) -> bool {
    exists|i: int| 0 <= i < keys.len() && path == reprefixed(#[trigger] keys[i], old, new)
}

/// When the paths below `old` become paths below `new`, and no note comes to a path that a note
/// after it still has, each note below `old` is found at its new path. At any other path below
/// `old` no note is left, and at any other path elsewhere nothing changes. `all` are the paths of
/// the notes, in the order in which they are gone through.
pub proof fn law_renamed_notes_are_found(
    cache: Map<Seq<char>, IndexNoteView>,
    all: Seq<Seq<char>>,
    old: Seq<char>,
    new: Seq<char>,
)
    requires
        all.no_duplicates(),
        forall|k: Seq<char>| #[trigger] cache.contains_key(k) <==> all.contains(k),
        forall|i: int, j: int|
            0 <= i < j < with_prefix(all, old).len() ==> reprefixed(
                #[trigger] with_prefix(all, old)[i],
                old,
                new,
            ) != #[trigger] with_prefix(all, old)[j],
    ensures
        forall|k: Seq<char>|
            #![trigger reprefixed(k, old, new)]
            cache.contains_key(k) && old.is_prefix_of(k) ==> {
                let after = with_renamed(cache, with_prefix(all, old), old, new);
                let path = reprefixed(k, old, new);
                after.contains_key(path) && after[path] == moved_to(cache[k], path)
            },
        forall|k: Seq<char>|
            #![trigger is_new_path(k, with_prefix(all, old), old, new)]
            !is_new_path(k, with_prefix(all, old), old, new) ==> {
                let after = with_renamed(cache, with_prefix(all, old), old, new);
                &&& after.contains_key(k) <==> cache.contains_key(k) && !old.is_prefix_of(k)
                &&& after.contains_key(k) ==> after[k] == cache[k]
            },
{
    let keys = with_prefix(all, old);
    let n = keys.len() as int;
    lemma_with_prefix_once(all, old);
    assert forall|i: int| 0 <= i < keys.len() implies cache.contains_key(#[trigger] keys[i])
        && old.is_prefix_of(keys[i]) by {
        assert(keys.contains(keys[i]));
        lemma_with_prefix(all, old, keys[i]);
    }
    assert(keys.take(n) =~= keys);
    lemma_renamed(cache, keys, old, new, n);
    let after = with_renamed(cache, keys, old, new);
    assert forall|k: Seq<char>|
        #![trigger reprefixed(k, old, new)]
        cache.contains_key(k) && old.is_prefix_of(k) implies {
        let path = reprefixed(k, old, new);
        after.contains_key(path) && after[path] == moved_to(cache[k], path)
    } by {
        lemma_with_prefix(all, old, k);
        let i = choose|i: int| 0 <= i < keys.len() && keys[i] == k;
        assert(keys[i] == k);
    }
    assert forall|k: Seq<char>|
        #![trigger is_new_path(k, keys, old, new)]
        !is_new_path(k, keys, old, new) implies {
        &&& after.contains_key(k) <==> cache.contains_key(k) && !old.is_prefix_of(k)
        &&& after.contains_key(k) ==> after[k] == cache[k]
    } by {
        lemma_with_prefix(all, old, k);
        assert(!is_new_path(k, keys.take(n), old, new));
    }
}

proof fn lemma_with_prefix_once(keys: Seq<Seq<char>>, prefix: Seq<char>)
    requires
        keys.no_duplicates(),
    ensures
        with_prefix(keys, prefix).no_duplicates(),
    decreases keys.len(),
{
    if keys.len() > 0 {
        let front = keys.drop_last();
        let kept = with_prefix(front, prefix);
        lemma_with_prefix_once(front, prefix);
        if kept.contains(keys.last()) {
            lemma_with_prefix(front, prefix, keys.last());
            let i = choose|i: int| 0 <= i < front.len() && front[i] == keys.last();
            assert(keys[i] == keys[keys.len() - 1]);
        }
        assert forall|i: int| 0 <= i < kept.len() implies #[trigger] kept[i] != keys.last() by {
            assert(kept.contains(kept[i]));
        }
    }
}

proof fn lemma_renamed(
    cache: Map<Seq<char>, IndexNoteView>,
    keys: Seq<Seq<char>>,
    old: Seq<char>,
    new: Seq<char>,
    n: int,
)
    requires
        0 <= n <= keys.len(),
        keys.no_duplicates(),
        forall|i: int|
            0 <= i < keys.len() ==> cache.contains_key(#[trigger] keys[i]) && old.is_prefix_of(
                keys[i],
            ),
        forall|i: int, j: int|
            0 <= i < j < keys.len() ==> reprefixed(#[trigger] keys[i], old, new)
                != #[trigger] keys[j],
    ensures
        forall|i: int|
            #![trigger keys[i]]
            0 <= i < n ==> {
                let after = with_renamed(cache, keys.take(n), old, new);
                let path = reprefixed(keys[i], old, new);
                after.contains_key(path) && after[path] == moved_to(cache[keys[i]], path)
            },
        forall|k: Seq<char>|
            #![trigger is_new_path(k, keys.take(n), old, new)]
            !is_new_path(k, keys.take(n), old, new) ==> {
                let after = with_renamed(cache, keys.take(n), old, new);
                &&& after.contains_key(k) <==> cache.contains_key(k) && !keys.take(n).contains(k)
                &&& after.contains_key(k) ==> after[k] == cache[k]
            },
    decreases n,
{
    let after = with_renamed(cache, keys.take(n), old, new);
    if n == 0 {
        assert(keys.take(0) =~= Seq::<Seq<char>>::empty());
    } else {
        lemma_renamed(cache, keys, old, new, n - 1);
        let front = keys.take(n - 1);
        let before = with_renamed(cache, front, old, new);
        let key = keys[n - 1];
        let path = reprefixed(key, old, new);
        assert(keys.take(n).drop_last() =~= front);
        assert(keys.take(n).last() == key);
        assert(keys.take(n) =~= front.push(key));
        assert(!front.contains(key)) by {
            if front.contains(key) {
                let i = choose|i: int| 0 <= i < front.len() && front[i] == key;
                assert(keys[i] == keys[n - 1]);
            }
        }
        assert(!is_new_path(key, front, old, new)) by {
            if is_new_path(key, front, old, new) {
                let i = choose|i: int|
                    0 <= i < front.len() && key == reprefixed(#[trigger] front[i], old, new);
                assert(reprefixed(keys[i], old, new) == keys[n - 1]);
            }
        }
        assert(after == before.remove(key).insert(path, moved_to(cache[key], path)));
        assert forall|i: int| #![trigger keys[i]] 0 <= i < n implies {
            let p = reprefixed(keys[i], old, new);
            after.contains_key(p) && after[p] == moved_to(cache[keys[i]], p)
        } by {
            let p = reprefixed(keys[i], old, new);
            if i < n - 1 {
                assert(before.contains_key(p));
                assert(p != keys[n - 1]);
                if p == path {
                    lemma_reprefixed_differ(keys[i], key, old, new);
                    assert(keys[i] == keys[n - 1]);
                }
            }
        }
        assert forall|k: Seq<char>|
            #![trigger is_new_path(k, keys.take(n), old, new)]
            !is_new_path(k, keys.take(n), old, new) implies {
            &&& after.contains_key(k) <==> cache.contains_key(k) && !keys.take(n).contains(k)
            &&& after.contains_key(k) ==> after[k] == cache[k]
        } by {
            assert(keys.take(n)[n - 1] == key);
            if is_new_path(k, front, old, new) {
                let i = choose|i: int|
                    0 <= i < front.len() && k == reprefixed(#[trigger] front[i], old, new);
                assert(keys.take(n)[i] == front[i]);
            }
            text::lemma_push_contains(front, key, k);
        }
    }
}

proof fn lemma_reprefixed_differ(a: Seq<char>, b: Seq<char>, old: Seq<char>, new: Seq<char>)
    requires
        old.is_prefix_of(a),
        old.is_prefix_of(b),
        reprefixed(a, old, new) == reprefixed(b, old, new),
    ensures
        a == b,
{
    let n = old.len() as int;
    let x = reprefixed(a, old, new);
    assert(x.skip(new.len() as int) =~= a.skip(n));
    assert(x.skip(new.len() as int) =~= b.skip(n));
    assert(a =~= a.take(n) + a.skip(n));
    assert(b =~= b.take(n) + b.skip(n));
}

/// Renaming one note and renaming it back leaves the notes as they were, if its new path was free
/// and it was filed under its own path.
pub proof fn law_rename_back_restores(
    cache: Map<Seq<char>, IndexNoteView>,
    from: Seq<char>,
    to: Seq<char>,
)
    requires
        !cache.contains_key(to),
        cache.contains_key(from) ==> cache[from].id == from && cache[from].path == from,
    ensures
        with_moved(with_moved(cache, from, to), to, from) == cache,
{
    let there = with_moved(cache, from, to);
    if cache.contains_key(from) {
        assert(there[to] == moved_to(cache[from], to));
        assert(with_moved(there, to, from) =~= cache);
    }
}

} // verus!
