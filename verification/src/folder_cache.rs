use crate::link_path;
use crate::note_moves;
use crate::string_map::StringMap;
use crate::text;
use vstd::prelude::*;

verus! {

/// A note or a folder in a folder.
#[derive(Debug, PartialEq, Eq)]
pub struct FolderEntry {
    pub name: String,
    pub is_dir: bool,
}

impl Clone for FolderEntry {
    fn clone(&self) -> (r: Self)
        ensures
            r == *self,
    {
        FolderEntry { name: self.name.clone(), is_dir: self.is_dir }
    }
}

/// What was in a folder, when that was found out, and when it was last asked for. Times are
/// nanoseconds since some fixed moment.
#[derive(Debug)]
pub struct FolderCacheEntry {
    pub items: Vec<FolderEntry>,
    pub cached_at: u64,
    pub last_accessed: u64,
}

/// How long an entry of the cache can be used, in nanoseconds: thirty seconds.
pub const FOLDER_CACHE_TTL_NANOS: u64 = 30_000_000_000;

/// How many entries the cache has at most.
pub const FOLDER_CACHE_MAX_ENTRIES: usize = 64;

/// An empty cache.
pub fn folder_cache() -> (r: StringMap<FolderCacheEntry>)
    ensures
        r@ == Map::<Seq<char>, FolderCacheEntry>::empty(),
{
    StringMap::new()
}

/// The key of a folder in the cache.
pub open spec fn cache_key(vault_id: Seq<char>, folder_path: Seq<char>) -> Seq<char> {
    vault_id + ":"@ + folder_path
}

/// The key of a folder in the cache.
pub fn folder_cache_key(vault_id: &str, folder_path: &str) -> (r: String)
    ensures
        r@ == cache_key(vault_id@, folder_path@),
{
    let mut key = text::chars_of(vault_id);
    let colon = text::chars_of(":");
    let folder = text::chars_of(folder_path);
    text::append(&mut key, colon.as_slice());
    text::append(&mut key, folder.as_slice());
    text::string_of(key.as_slice())
}

/// Whether an entry can still be used at the time `now`.
pub open spec fn usable(entry: FolderCacheEntry, now: u64) -> bool {
    now - entry.cached_at < FOLDER_CACHE_TTL_NANOS
}

/// The entries of `cache` that can still be used at the time `now`.
pub open spec fn usable_entries(cache: Map<Seq<char>, FolderCacheEntry>, now: u64) -> Map<
    Seq<char>,
    FolderCacheEntry,
> {
    Map::new(
        |k: Seq<char>| cache.contains_key(k) && usable(cache[k], now),
        |k: Seq<char>| cache[k],
    )
}

fn is_usable(entry: &FolderCacheEntry, now: u64) -> (r: bool)
    ensures
        r == usable(*entry, now),
{
    now < entry.cached_at || now - entry.cached_at < FOLDER_CACHE_TTL_NANOS
}

/// Takes out the entries that can no longer be used at the time `now`.
pub fn purge_expired_folder_cache(cache: &mut StringMap<FolderCacheEntry>, now: u64)
    ensures
        final(cache)@ == usable_entries(old(cache)@, now),
{
    let n = cache.len();
    let ghost start = cache@;
    let ghost keys = cache.keys();
    let mut expired: Vec<String> = Vec::new();
    let mut i: usize = 0;
    while i < n
        invariant
            i <= n,
            n == keys.len(),
            keys == cache.keys(),
            start == cache@,
            forall|k: Seq<char>| #[trigger] cache@.contains_key(k) <==> keys.contains(k),
            forall|k: int| 0 <= k < expired@.len() ==> start.contains_key(#[trigger] expired@[k]@)
                && !usable(start[expired@[k]@], now),
            forall|j: int|
                0 <= j < i && !usable(start[#[trigger] keys[j]], now) ==> text::texts(
                    expired@,
                ).contains(keys[j]),
        decreases n - i,
    {
        let key = cache.key_at(i);
        let ghost before = expired@;
        assert(keys.contains(keys[i as int]));
        if let Some(entry) = cache.get(key.as_str()) {
            if !is_usable(entry, now) {
                expired.push(key.clone());
                proof {
                    assert(text::texts(expired@) =~= text::texts(before).push(key@));
                    assert(text::texts(expired@)[before.len() as int] == key@);
                }
            }
        }
        proof {
            assert forall|j: int|
                0 <= j < i + 1 && !usable(start[#[trigger] keys[j]], now) implies text::texts(
                expired@,
            ).contains(keys[j]) by {
                if j < i {
                    let m = choose|m: int|
                        0 <= m < text::texts(before).len() && text::texts(before)[m] == keys[j];
                    assert(text::texts(expired@)[m] == keys[j]);
                }
            }
        }
        i += 1;
    }
    let mut j: usize = 0;
    while j < expired.len()
        invariant
            j <= expired@.len(),
            forall|k: int| 0 <= k < expired@.len() ==> start.contains_key(#[trigger] expired@[k]@)
                && !usable(start[expired@[k]@], now),
            forall|k: Seq<char>| #[trigger]
                cache@.contains_key(k) ==> start.contains_key(k) && cache@[k] == start[k],
            forall|k: Seq<char>|
                start.contains_key(k) && usable(start[k], now)
                    ==> #[trigger] cache@.contains_key(k),
            forall|k: int| 0 <= k < j ==> !cache@.contains_key(#[trigger] expired@[k]@),
        decreases expired.len() - j,
    {
        cache.remove(expired[j].as_str());
        j += 1;
    }
    proof {
        assert forall|k: Seq<char>| #[trigger] cache@.contains_key(k) <==> usable_entries(
            start,
            now,
        ).contains_key(k) by {
            if cache@.contains_key(k) && !usable(start[k], now) {
                assert(start.contains_key(k));
                assert(keys.contains(k));
                let m = choose|m: int| 0 <= m < keys.len() && keys[m] == k;
                assert(text::texts(expired@).contains(keys[m]));
                let e = choose|e: int|
                    0 <= e < text::texts(expired@).len() && text::texts(expired@)[e] == keys[m];
                assert(expired@[e]@ == k);
            }
        }
        assert(cache@ =~= usable_entries(start, now));
    }
}

/// Whether `after` is `before` with nothing added or changed, and with nothing taken out that was
/// asked for later than something that stayed.
pub open spec fn oldest_removed(
    before: Map<Seq<char>, FolderCacheEntry>,
    after: Map<Seq<char>, FolderCacheEntry>,
) -> bool {
    &&& forall|k: Seq<char>| #[trigger]
        after.contains_key(k) ==> before.contains_key(k) && after[k] == before[k]
    &&& forall|gone: Seq<char>, kept: Seq<char>|
        before.contains_key(gone) && !(#[trigger] after.contains_key(gone))
            && #[trigger] after.contains_key(kept) ==> before[gone].last_accessed
            <= before[kept].last_accessed
}

/// The place among the keys of an entry that was asked for no later than any other.
fn oldest_entry(cache: &StringMap<FolderCacheEntry>) -> (r: usize)
    requires
        cache.keys().len() > 0,
    ensures
        r < cache.keys().len(),
        cache@.contains_key(cache.keys()[r as int]),
        forall|k: Seq<char>| #[trigger]
            cache@.contains_key(k) ==> cache@[cache.keys()[r as int]].last_accessed
                <= cache@[k].last_accessed,
{
    let n = cache.len();
    let ghost keys = cache.keys();
    let mut best: usize = 0;
    let mut least: u64 = u64::MAX;
    let mut i: usize = 0;
    while i < n
        invariant
            i <= n,
            n == keys.len(),
            n > 0,
            keys == cache.keys(),
            forall|k: Seq<char>| #[trigger] cache@.contains_key(k) <==> keys.contains(k),
            best < n,
            i > 0 ==> least == cache@[keys[best as int]].last_accessed,
            i == 0 ==> least == u64::MAX,
            forall|j: int| 0 <= j < i ==> least <= cache@[#[trigger] keys[j]].last_accessed,
        decreases n - i,
    {
        let key = cache.key_at(i);
        assert(keys.contains(keys[i as int]));
        if let Some(entry) = cache.get(key.as_str()) {
            if i == 0 || entry.last_accessed < least {
                best = i;
                least = entry.last_accessed;
            }
        }
        i += 1;
    }
    proof {
        assert(keys.contains(keys[best as int]));
        assert forall|k: Seq<char>| #[trigger] cache@.contains_key(k) implies cache@[keys[best as int]].last_accessed
            <= cache@[k].last_accessed by {
            assert(keys.contains(k));
            let j = choose|j: int| 0 <= j < keys.len() && keys[j] == k;
            assert(least <= cache@[keys[j]].last_accessed);
        }
    }
    best
}

/// How many of `n` entries stay in the cache.
pub open spec fn bounded(n: nat) -> nat {
    if n <= FOLDER_CACHE_MAX_ENTRIES {
        n
    } else {
        FOLDER_CACHE_MAX_ENTRIES as nat
    }
}

/// Takes out the entries that were asked for longest ago until the cache is not too large.
pub fn evict_folder_cache_if_needed(cache: &mut StringMap<FolderCacheEntry>)
    ensures
        oldest_removed(old(cache)@, final(cache)@),
        final(cache)@.len() == bounded(old(cache)@.len()),
        old(cache)@.len() <= FOLDER_CACHE_MAX_ENTRIES ==> final(cache)@ == old(cache)@,
{
    let ghost start = cache@;
    let ghost count = cache@.len();
    let mut n = cache.len();
    while n > FOLDER_CACHE_MAX_ENTRIES
        invariant
            n == cache@.len(),
            n == cache.keys().len(),
            cache@.dom().finite(),
            n <= count,
            count > FOLDER_CACHE_MAX_ENTRIES ==> n >= FOLDER_CACHE_MAX_ENTRIES,
            count <= FOLDER_CACHE_MAX_ENTRIES ==> cache@ == start && n == count,
            oldest_removed(start, cache@),
        decreases n,
    {
        let ghost before = cache@;
        let i = oldest_entry(cache);
        let key = cache.key_at(i).clone();
        cache.remove(key.as_str());
        n = cache.len();
        proof {
            assert forall|gone: Seq<char>, kept: Seq<char>|
                start.contains_key(gone) && !(#[trigger] cache@.contains_key(gone))
                    && #[trigger] cache@.contains_key(
                    kept,
                ) implies start[gone].last_accessed <= start[kept].last_accessed by {
                assert(before.contains_key(kept));
                if gone == key@ {
                    assert(before[gone].last_accessed <= before[kept].last_accessed);
                } else {
                    assert(!before.contains_key(gone));
                }
            }
        }
    }
}

/// Takes the entry of a folder out of the cache.
pub fn invalidate_folder_cache(
    cache: &mut StringMap<FolderCacheEntry>,
    vault_id: &str,
    folder_path: &str,
)
    ensures
        final(cache)@ == old(cache)@.remove(cache_key(vault_id@, folder_path@)),
{
    let key = folder_cache_key(vault_id, folder_path);
    cache.remove(key.as_str());
}

/// Takes the entry of the folder that a note lies in out of the cache.
pub fn invalidate_note_parent_folder_cache(
    cache: &mut StringMap<FolderCacheEntry>,
    vault_id: &str,
    note_path: &str,
)
    ensures
        final(cache)@ == old(cache)@.remove(
            cache_key(vault_id@, link_path::parent_of(note_path@)),
        ),
{
    let parent = note_moves::parent_folder_path(note_path);
    invalidate_folder_cache(cache, vault_id, parent.as_str());
}

/// Takes the entry of the folder that a folder lies in out of the cache.
pub fn invalidate_folder_parent_cache(
    cache: &mut StringMap<FolderCacheEntry>,
    vault_id: &str,
    folder_path: &str,
)
    ensures
        final(cache)@ == old(cache)@.remove(
            cache_key(vault_id@, link_path::parent_of(folder_path@)),
        ),
{
    let parent = note_moves::parent_folder_path(folder_path);
    invalidate_folder_cache(cache, vault_id, parent.as_str());
}

/// A copy of `items`.
pub fn copied_entries(items: &Vec<FolderEntry>) -> (r: Vec<FolderEntry>)
    ensures
        r@ == items@,
{
    let mut out: Vec<FolderEntry> = Vec::new();
    let mut i: usize = 0;
    while i < items.len()
        invariant
            i <= items@.len(),
            out@ == items@.take(i as int),
        decreases items.len() - i,
    {
        out.push(items[i].clone());
        i += 1;
        assert(items@.take(i as int) =~= items@.take(i - 1).push(items@[i - 1]));
    }
    proof {
        assert(items@.take(items@.len() as int) =~= items@);
    }
    out
}

/// What the cache knows of a folder at the time `now`; `None` if the folder has to be looked at.
pub fn get_or_scan_folder_entries(
    cache: &mut StringMap<FolderCacheEntry>,
    cache_key: &str,
    now: u64,
) -> (r: Option<Vec<FolderEntry>>)
    ensures
        ({
            let left = usable_entries(old(cache)@, now);
            if left.contains_key(cache_key@) {
                &&& r matches Some(items) && items@ == left[cache_key@].items@
                &&& final(cache)@.dom() == left.dom()
                &&& final(cache)@[cache_key@].items@ == left[cache_key@].items@
                &&& final(cache)@[cache_key@].cached_at == left[cache_key@].cached_at
                &&& final(cache)@[cache_key@].last_accessed == now
                &&& forall|k: Seq<char>|
                    k != cache_key@ && left.contains_key(k) ==> #[trigger] final(cache)@[k]
                        == left[k]
            } else {
                r is None && final(cache)@ == left
            }
        }),
{
    purge_expired_folder_cache(cache, now);
    let ghost left = cache@;
    match cache.remove(cache_key) {
        Some(entry) => {
            let items = copied_entries(&entry.items);
            cache.insert(
                cache_key.to_owned(),
                FolderCacheEntry {
                    items: entry.items,
                    cached_at: entry.cached_at,
                    last_accessed: now,
                },
            );
            assert(cache@.dom() =~= left.dom());
            Some(items)
        },
        None => {
            assert(left.remove(cache_key@) =~= left);
            None
        },
    }
}

/// Keeps in the cache what was found in a folder at the time `now`.
pub fn keep_scanned_entries(
    cache: &mut StringMap<FolderCacheEntry>,
    cache_key: &str,
    items: &Vec<FolderEntry>,
    now: u64,
)
    ensures
        exists|entry: FolderCacheEntry|
            #![trigger usable_entries(old(cache)@, now).insert(cache_key@, entry)]
            {
                let full = usable_entries(old(cache)@, now).insert(cache_key@, entry);
                &&& entry.items@ == items@
                &&& entry.cached_at == now
                &&& entry.last_accessed == now
                &&& oldest_removed(full, final(cache)@)
                &&& final(cache)@.len() == bounded(full.len())
                &&& full.len() <= FOLDER_CACHE_MAX_ENTRIES ==> final(cache)@ == full
            },
{
    let ghost start = cache@;
    purge_expired_folder_cache(cache, now);
    let entry = FolderCacheEntry {
        items: copied_entries(items),
        cached_at: now,
        last_accessed: now,
    };
    let ghost kept = entry;
    cache.insert(cache_key.to_owned(), entry);
    let ghost full = cache@;
    evict_folder_cache_if_needed(cache);
    proof {
        assert(full == usable_entries(start, now).insert(cache_key@, kept));
    }
}

/// What was kept of a folder is found again for thirty seconds, as long as the cache has room: a
/// look at the time `later` gives what was found at the time `now`.
pub proof fn law_kept_entry_is_found(
    cache: Map<Seq<char>, FolderCacheEntry>,
    key: Seq<char>,
    entry: FolderCacheEntry,
    now: u64,
    later: u64,
)
    requires
        entry.cached_at == now,
        now <= later < now + FOLDER_CACHE_TTL_NANOS,
    ensures
        usable_entries(cache.insert(key, entry), later).contains_key(key),
        usable_entries(cache.insert(key, entry), later)[key].items@ == entry.items@,
{
}

/// What was kept of a folder is not found any more once thirty seconds have passed.
pub proof fn law_expired_entry_is_not_found(
    cache: Map<Seq<char>, FolderCacheEntry>,
    key: Seq<char>,
    now: u64,
)
    requires
        cache.contains_key(key) ==> cache[key].cached_at + FOLDER_CACHE_TTL_NANOS <= now,
    ensures
        !usable_entries(cache, now).contains_key(key),
{
}

} // verus!
