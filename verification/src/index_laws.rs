use crate::index_run;
use crate::index_run::{CommandKind, NoteRead, RunView, Upsert, UpsertEvent};
use crate::link_parser;
use crate::search_index;
use crate::search_index::{DbCommand, DbOutcome, IndexNoteMeta, IndexNoteView};
use crate::string_map::StringMap;
use crate::text;
use vstd::prelude::*;

verus! {

/// Whether a text begins with another.
pub open spec fn begins_with(s: Seq<char>, start: Seq<char>) -> bool {
    s.len() >= start.len() && forall|i: int| 0 <= i < start.len() ==> #[trigger] s[i] == start[i]
}

proof fn lemma_begins_with(s: Seq<char>, start: Seq<char>)
    ensures
        start.is_prefix_of(s) <==> begins_with(s, start),
{
    if start.is_prefix_of(s) {
        assert forall|i: int| 0 <= i < start.len() implies #[trigger] s[i] == start[i] by {
            assert(s.take(start.len() as int)[i] == s[i]);
        }
    } else if begins_with(s, start) {
        assert(s.take(start.len() as int) =~= start);
    }
}

/// After a note was removed, the cache holds all other notes as before, and not that one.
pub proof fn law_removed_note_is_gone<P, J, R, N>(
    note_id: String,
    reply: R,
    cache: Map<Seq<char>, IndexNoteView>,
    keys: Seq<Seq<char>>,
    k: Seq<char>,
)
    ensures
        ({
            let after = search_index::cache_after(
                DbCommand::<P, J, R, N>::RemoveNote { note_id, reply },
                DbOutcome::Done,
                cache,
                keys,
            );
            &&& after.contains_key(k) <==> cache.contains_key(k) && k != note_id@
            &&& after.contains_key(k) ==> after[k] == cache[k]
        }),
{
}

/// After several notes were removed, the cache holds all other notes as before, and none of those.
pub proof fn law_removed_notes_are_gone<P, J, R, N>(
    note_ids: Vec<String>,
    reply: R,
    cache: Map<Seq<char>, IndexNoteView>,
    keys: Seq<Seq<char>>,
    k: Seq<char>,
)
    ensures
        ({
            let after = search_index::cache_after(
                DbCommand::<P, J, R, N>::RemoveNotes { note_ids, reply },
                DbOutcome::Done,
                cache,
                keys,
            );
            &&& after.contains_key(k) <==> cache.contains_key(k) && forall|i: int|
                0 <= i < note_ids@.len() ==> (#[trigger] note_ids@[i])@ != k
            &&& after.contains_key(k) ==> after[k] == cache[k]
        }),
{
    let ids = text::texts(note_ids@);
    if ids.contains(k) {
        let i = choose|i: int| 0 <= i < ids.len() && ids[i] == k;
        assert(note_ids@[i]@ == k);
    } else {
        assert forall|i: int| 0 <= i < note_ids@.len() implies (#[trigger] note_ids@[i])@ != k by {
            assert(ids[i] == note_ids@[i]@);
        }
    }
}

/// After the notes whose paths begin with a text were removed, the cache holds all other notes as
/// before, and none of those.
pub proof fn law_notes_below_are_gone<P, J, R, N>(
    prefix: String,
    reply: R,
    cache: Map<Seq<char>, IndexNoteView>,
    keys: Seq<Seq<char>>,
    k: Seq<char>,
)
    ensures
        ({
            let after = search_index::cache_after(
                DbCommand::<P, J, R, N>::RemoveNotesByPrefix { prefix, reply },
                DbOutcome::Done,
                cache,
                keys,
            );
            &&& after.contains_key(k) <==> cache.contains_key(k) && !begins_with(k, prefix@)
            &&& after.contains_key(k) ==> after[k] == cache[k]
        }),
{
    lemma_begins_with(k, prefix@);
}

/// Whether `after` is `before` under another path.
pub open spec fn refiled(before: IndexNoteView, after: IndexNoteView, path: Seq<char>) -> bool {
    &&& after.id == path
    &&& after.path == path
    &&& after.title == before.title
    &&& after.name == before.name
    &&& after.mtime_ms == before.mtime_ms
    &&& after.size_bytes == before.size_bytes
}

/// After a note was renamed, the cache holds it under its new path only, and all other notes as
/// before, but for one that had the new path.
pub proof fn law_renamed_note_is_refiled<P, J, R, N>(
    old_path: String,
    new_path: String,
    reply: R,
    cache: Map<Seq<char>, IndexNoteView>,
    keys: Seq<Seq<char>>,
    k: Seq<char>,
)
    ensures
        ({
            let after = search_index::cache_after(
                DbCommand::<P, J, R, N>::RenamePath { old_path, new_path, reply },
                DbOutcome::Done,
                cache,
                keys,
            );
            &&& cache.contains_key(old_path@) ==> after.contains_key(new_path@) && refiled(
                cache[old_path@],
                after[new_path@],
                new_path@,
            )
            &&& k != new_path@ ==> (after.contains_key(k) <==> cache.contains_key(k) && k
                != old_path@)
            &&& k != new_path@ && after.contains_key(k) ==> after[k] == cache[k]
            &&& !cache.contains_key(old_path@) ==> after == cache
        }),
{
}

/// After the paths that begin with a text were renamed to begin with another, the cache holds each
/// of their notes under its new path and none under its old one, and all other notes as before, if
/// no note comes to a path that another note has. `keys` are the paths in the cache.
pub proof fn law_notes_below_are_refiled<P, J, R, N>(
    old_prefix: String,
    new_prefix: String,
    reply: N,
    count: usize,
    cache: Map<Seq<char>, IndexNoteView>,
    keys: Seq<Seq<char>>,
    rest: Seq<char>,
    k: Seq<char>,
)
    requires
        count > 0,
        keys.no_duplicates(),
        forall|p: Seq<char>| #[trigger] cache.contains_key(p) <==> keys.contains(p),
        forall|tail: Seq<char>, p: Seq<char>|
            #![trigger cache.contains_key(old_prefix@ + tail), cache.contains_key(p)]
            cache.contains_key(old_prefix@ + tail) && cache.contains_key(p) ==> new_prefix@ + tail
                != p,
    ensures
        ({
            let after = search_index::cache_after(
                DbCommand::<P, J, R, N>::RenamePaths { old_prefix, new_prefix, reply },
                DbOutcome::Renamed(count),
                cache,
                keys,
            );
            let was = old_prefix@ + rest;
            let is = new_prefix@ + rest;
            &&& cache.contains_key(was) ==> after.contains_key(is) && refiled(
                cache[was],
                after[is],
                is,
            )
            &&& !begins_with(k, new_prefix@) ==> (after.contains_key(k) <==> cache.contains_key(k)
                && !begins_with(k, old_prefix@))
            &&& !begins_with(k, new_prefix@) && after.contains_key(k) ==> after[k] == cache[k]
        }),
{
    let old = old_prefix@;
    let new = new_prefix@;
    let below = search_index::with_prefix(keys, old);
    assert forall|i: int| 0 <= i < below.len() implies cache.contains_key(#[trigger] below[i])
        && old.is_prefix_of(below[i]) && below[i] == old + below[i].skip(old.len() as int) by {
        assert(below.contains(below[i]));
        lemma_below(keys, old, below[i]);
        let p = below[i];
        assert(p =~= p.take(old.len() as int) + p.skip(old.len() as int));
    }
    assert forall|i: int, j: int| 0 <= i < j < below.len() implies search_index::reprefixed(
        #[trigger] below[i],
        old,
        new,
    ) != #[trigger] below[j] by {
        let tail = below[i].skip(old.len() as int);
        assert(cache.contains_key(old + tail));
        assert(cache.contains_key(below[j]));
    }
    search_index::law_renamed_notes_are_found(cache, keys, old, new);
    let was = old + rest;
    assert(was.take(old.len() as int) =~= old);
    assert(was.skip(old.len() as int) =~= rest);
    assert(search_index::reprefixed(was, old, new) == new + rest);
    lemma_begins_with(k, old);
    if !begins_with(k, new) {
        if search_index::is_new_path(k, below, old, new) {
            let i = choose|i: int|
                0 <= i < below.len() && k == search_index::reprefixed(
                    #[trigger] below[i],
                    old,
                    new,
                );
            assert forall|j: int| 0 <= j < new.len() implies #[trigger] k[j] == new[j] by {}
            assert(begins_with(k, new));
        }
    }
}

proof fn lemma_below(keys: Seq<Seq<char>>, prefix: Seq<char>, k: Seq<char>)
    ensures
        search_index::with_prefix(keys, prefix).contains(k) <==> keys.contains(k)
            && prefix.is_prefix_of(k),
    decreases keys.len(),
{
    if keys.len() > 0 {
        let front = keys.drop_last();
        lemma_below(front, prefix, k);
        text::lemma_push_contains(front, keys.last(), k);
        text::lemma_push_contains(
            search_index::with_prefix(front, prefix),
            keys.last(),
            k,
        );
        assert(front.push(keys.last()) =~= keys);
    }
}

/// After a run of the indexer the cache holds just the notes that the database has; a command that
/// failed, a note on its way into the index and the end of the writer leave the cache as it is, and
/// so does a rename of no notes.
pub proof fn law_cache_follows_the_database<P, J, R, N>(
    cmd: DbCommand<P, J, R, N>,
    outcome: DbOutcome,
    map: StringMap<IndexNoteMeta>,
    cache: Map<Seq<char>, IndexNoteView>,
    keys: Seq<Seq<char>>,
    k: Seq<char>,
)
    ensures
        cmd is Rebuild || cmd is Sync ==> {
            let after = search_index::cache_after(cmd, DbOutcome::Reloaded(map), cache, keys);
            &&& after.contains_key(k) <==> map@.contains_key(k)
            &&& after.contains_key(k) ==> after[k] == map@[k]@
        },
        search_index::cache_after(cmd, DbOutcome::Failed, cache, keys) == cache,
        cmd is UpsertNote || cmd is Shutdown ==> search_index::cache_after(
            cmd,
            outcome,
            cache,
            keys,
        ) == cache,
        cmd is RenamePaths ==> search_index::cache_after(cmd, DbOutcome::Renamed(0), cache, keys)
            == cache,
{
}

/// A run of the indexer is one kind of command, the end of the writer another, and all others are
/// changes.
pub proof fn law_command_kinds<P, J, R, N>(cmd: DbCommand<P, J, R, N>)
    ensures
        index_run::kind_of(cmd) == CommandKind::Index <==> cmd is Rebuild || cmd is Sync,
        index_run::kind_of(cmd) == CommandKind::Shutdown <==> cmd is Shutdown,
        index_run::kind_of(cmd) == CommandKind::Mutation <==> cmd is UpsertNote || cmd is RemoveNote
            || cmd is RemoveNotes || cmd is RemoveNotesByPrefix || cmd is RenamePaths
            || cmd is RenamePath,
{
}

/// The commands that wait for the end of a run are the runs and the ends of the writer among those
/// that came, in their order.
pub proof fn law_runs_and_shutdowns_wait<P, J, R, N>(commands: Seq<DbCommand<P, J, R, N>>)
    ensures
        index_run::waiting(commands) == commands.filter(
            |cmd: DbCommand<P, J, R, N>| cmd is Rebuild || cmd is Sync || cmd is Shutdown,
        ),
    decreases commands.len(),
{
    reveal(Seq::filter);
    if commands.len() > 0 {
        law_runs_and_shutdowns_wait(commands.drop_last());
        law_command_kinds(commands.last());
    }
}

/// The further run that changes ask for is asked for once: with the first change, behind the
/// commands that came before it. Without a change none is asked for.
pub proof fn law_first_change_asks_for_a_run<P, J, R, N>(
    commands: Seq<DbCommand<P, J, R, N>>,
    at: int,
)
    requires
        0 <= at <= commands.len(),
        forall|i: int|
            0 <= i < at ==> (#[trigger] commands[i]) is Rebuild || commands[i] is Sync
                || commands[i] is Shutdown,
        at < commands.len() ==> !(commands[at] is Rebuild || commands[at] is Sync
            || commands[at] is Shutdown),
    ensures
        index_run::changes(commands) == 0 <==> at == commands.len(),
        at < commands.len() ==> index_run::waiting_at_change(commands) == at,
        at == commands.len() ==> index_run::waiting(commands) == commands,
    decreases commands.len(),
{
    if commands.len() > 0 {
        let front = commands.drop_last();
        let n = front.len() as int;
        law_command_kinds(commands[n]);
        if at <= n {
            assert forall|i: int| 0 <= i < at implies (#[trigger] front[i]) is Rebuild
                || front[i] is Sync || front[i] is Shutdown by {
                assert(front[i] == commands[i]);
            }
            law_first_change_asks_for_a_run(front, at);
        } else {
            assert forall|i: int| 0 <= i < n implies (#[trigger] front[i]) is Rebuild
                || front[i] is Sync || front[i] is Shutdown by {
                assert(front[i] == commands[i]);
            }
            law_first_change_asks_for_a_run(front, n);
            assert(front.push(commands[n]) =~= commands);
        }
    }
}

/// A command that comes to a run, or a further run that is asked for, changes nothing but what waits
/// and whether a further run was asked for; a run begins with nothing of all this.
pub proof fn law_run_keeps_its_marks<P, J, R, N>(
    run: RunView<P, J, R, N>,
    cmd: DbCommand<P, J, R, N>,
    job: J,
)
    ensures
        index_run::with_command(run, cmd).started == run.started,
        index_run::with_command(run, cmd).sync_queued == run.sync_queued,
        cmd is Rebuild || cmd is Sync || cmd is Shutdown ==> index_run::with_command(
            run,
            cmd,
        ).deferred == run.deferred.push(cmd),
        !(cmd is Rebuild || cmd is Sync || cmd is Shutdown) ==> index_run::with_command(
            run,
            cmd,
        ).deferred == run.deferred,
        index_run::with_sync(run, job).started == run.started,
        index_run::with_sync(run, job).sync_queued,
        index_run::with_sync(run, job).deferred == run.deferred.push(
            DbCommand::<P, J, R, N>::Sync(job),
        ),
        index_run::fresh_run::<P, J, R, N>().deferred.len() == 0,
        !index_run::fresh_run::<P, J, R, N>().started,
        !index_run::fresh_run::<P, J, R, N>().sync_queued,
{
}

/// The notes that a note leads to are listed once each, in ascending order, without the note itself,
/// and none is left out.
pub proof fn law_other_notes_in_order(
    r: Seq<Seq<char>>,
    targets: Seq<Seq<char>>,
    path: Seq<char>,
    k: Seq<char>,
)
    requires
        index_run::lists_others(r, targets, path),
    ensures
        r.no_duplicates(),
        forall|i: int, j: int|
            0 <= i < j < r.len() ==> text::text_less(#[trigger] r[i], #[trigger] r[j]),
        (exists|i: int| 0 <= i < r.len() && #[trigger] r[i] == k) <==> k != path && exists|i: int|
            0 <= i < targets.len() && #[trigger] targets[i] == k,
{
    assert forall|i: int, j: int| 0 <= i < r.len() && 0 <= j < r.len() && i != j implies r[i]
        != r[j] by {
        text::lemma_text_less_strict(r[i]);
        if i < j {
            assert(text::text_less(r[i], r[j]));
        } else {
            assert(text::text_less(r[j], r[i]));
        }
    }
    assert(r.contains(k) <==> targets.contains(k) && k != path);
    if exists|i: int| 0 <= i < r.len() && #[trigger] r[i] == k {
        assert(r.contains(k));
        let i = choose|i: int| 0 <= i < targets.len() && targets[i] == k;
        assert(targets[i] == k);
    }
    if k != path && exists|i: int| 0 <= i < targets.len() && #[trigger] targets[i] == k {
        assert(targets.contains(k));
        let i = choose|i: int| 0 <= i < r.len() && r[i] == k;
        assert(r[i] == k);
    }
}

/// A note that was read goes into the index: what is known of it and its text are put into the
/// database and into the cache, under its path, and then the notes that it leads to are recorded.
pub proof fn law_note_is_indexed(
    note_id: String,
    content: String,
    meta: IndexNoteMeta,
    extract: Upsert,
    store: Upsert,
    link: Upsert,
    end: Upsert,
    cache: Map<Seq<char>, IndexNoteView>,
    k: Seq<char>,
)
    requires
        index_run::upsert_step(
            Upsert::Read { note_id },
            UpsertEvent::Read(NoteRead::Content(content)),
            extract,
        ),
        index_run::upsert_step(extract, UpsertEvent::Extracted(Ok(meta)), store),
        index_run::upsert_step(store, UpsertEvent::Stored(Ok(())), link),
        index_run::upsert_step(link, UpsertEvent::Linked(Ok(())), end),
    ensures
        extract matches Upsert::Extract { markdown } && markdown@ == content@,
        store matches Upsert::Store { markdown, meta: m } && markdown@ == content@ && m@ == meta@,
        link matches Upsert::Link { path, outlinks } && path@ == meta.path@
            && index_run::lists_others(
            text::texts(outlinks@),
            link_parser::internal_targets(link_parser::note_links(content@, meta.path@)),
            meta.path@,
        ),
        end matches Upsert::Done(Ok(_)),
        ({
            let after = index_run::cache_after_upsert(store, UpsertEvent::Stored(Ok(())), cache);
            &&& after.contains_key(meta.path@) && after[meta.path@] == meta@
            &&& k != meta.path@ ==> (after.contains_key(k) <==> cache.contains_key(k))
            &&& k != meta.path@ && cache.contains_key(k) ==> after[k] == cache[k]
        }),
{
    assert(store->Store_meta@ == meta@);
    assert(store->Store_meta.path@ == meta@.path);
}

/// A note that is gone leaves the database and the cache, and that is a success.
pub proof fn law_missing_note_is_forgotten(
    note_id: String,
    forget: Upsert,
    end: Upsert,
    cache: Map<Seq<char>, IndexNoteView>,
    k: Seq<char>,
)
    requires
        index_run::upsert_step(
            Upsert::Read { note_id },
            UpsertEvent::Read(NoteRead::Missing),
            forget,
        ),
        index_run::upsert_step(forget, UpsertEvent::Forgotten, end),
    ensures
        forget matches Upsert::Forget { note_id: gone } && gone@ == note_id@,
        end matches Upsert::Done(Ok(_)),
        ({
            let after = index_run::cache_after_upsert(forget, UpsertEvent::Forgotten, cache);
            &&& after.contains_key(k) <==> cache.contains_key(k) && k != note_id@
            &&& after.contains_key(k) ==> after[k] == cache[k]
        }),
{
}

/// A note whose way into the index fails at a step ends with the error of that step, and the cache
/// stays as it is.
pub proof fn law_failed_step_ends_with_its_error(
    step: Upsert,
    error: String,
    after: Upsert,
    event: UpsertEvent,
    cache: Map<Seq<char>, IndexNoteView>,
)
    requires
        index_run::upsert_step(step, event, after),
        (step is Read && event == UpsertEvent::Read(NoteRead::Failed(error))) || (step is Extract
            && event == UpsertEvent::Extracted(Err(error))) || (step is Store && event
            == UpsertEvent::Stored(Err(error))) || (step is Link && event == UpsertEvent::Linked(
            Err(error),
        )),
    ensures
        after matches Upsert::Done(Err(e)) && e@ == error@,
        index_run::cache_after_upsert(step, event, cache) == cache,
{
}

} // verus!
