use crate::link_parser;
use crate::link_path;
use crate::link_rewrite;
use crate::link_rewrite::RewriteResult;
use crate::markdown;
use crate::search_index;
use crate::search_index::{DbCommand, IndexNoteMeta, IndexProgressEvent};
use crate::string_map::StringMap;
use crate::text;
use vstd::prelude::*;

verus! {

/// What came of reading a note.
#[derive(Debug)]
pub enum NoteRead {
    Content(String),
    Missing,
    Failed(String),
}

/// The way a note takes into the index: what has to be done next.
#[derive(Debug)]
pub enum Upsert {
    /// Read the note.
    Read { note_id: String },
    /// Take the note, which is gone, out of the database.
    Forget { note_id: String },
    /// Find out what the index is to know of the note.
    Extract { markdown: String },
    /// Put the note into the database.
    Store { markdown: String, meta: IndexNoteMeta },
    /// Record the notes that the note at `path` leads to.
    Link { path: String, outlinks: Vec<String> },
    /// Nothing more.
    Done(Result<(), String>),
}

/// What was done for a note on its way into the index.
#[derive(Debug)]
pub enum UpsertEvent {
    Read(NoteRead),
    Forgotten,
    Extracted(Result<IndexNoteMeta, String>),
    Stored(Result<(), String>),
    Linked(Result<(), String>),
}

/// Whether `r` lists the texts that `targets` holds, without `path`, each once and in ascending
/// order.
pub open spec fn lists_others(
    r: Seq<Seq<char>>,
    targets: Seq<Seq<char>>,
    path: Seq<char>,
) -> bool {
    &&& forall|i: int, j: int|
        0 <= i < j < r.len() ==> text::text_less(#[trigger] r[i], #[trigger] r[j])
    &&& forall|k: Seq<char>| #[trigger] r.contains(k) <==> targets.contains(k) && k != path
}

/// Those of `targets` that are other than `path`, each once and in ascending order.
pub fn others_in_order(targets: &Vec<String>, path: &str) -> (r: Vec<String>)
    ensures
        lists_others(text::texts(r@), text::texts(targets@), path@),
{
    let mut resolved: StringMap<()> = StringMap::new();
    let ghost all = text::texts(targets@);
    let mut i: usize = 0;
    while i < targets.len()
        invariant
            i <= targets@.len(),
            all == text::texts(targets@),
            forall|k: Seq<char>| #[trigger]
                resolved@.contains_key(k) <==> all.take(i as int).contains(k) && k != path@,
        decreases targets.len() - i,
    {
        if !text::same_text(targets[i].as_str(), path) {
            resolved.insert(targets[i].clone(), ());
        }
        proof {
            let here = all.take(i as int);
            assert(all.take(i + 1) =~= here.push(all[i as int]));
            assert forall|k: Seq<char>| #[trigger]
                all.take(i + 1).contains(k) <==> here.contains(k) || k == all[i as int] by {
                text::lemma_push_contains(here, all[i as int], k);
            }
        }
        i += 1;
    }
    proof {
        assert(all.take(targets@.len() as int) =~= all);
    }
    let n = resolved.len();
    let mut out: Vec<String> = Vec::new();
    let mut j: usize = 0;
    while j < n
        invariant
            j <= n,
            n == resolved.keys().len(),
            text::texts(out@) =~= resolved.keys().take(j as int),
        decreases n - j,
    {
        let ghost before = out@;
        out.push(resolved.key_at(j).clone());
        j += 1;
        proof {
            assert(text::texts(out@) =~= text::texts(before).push(resolved.keys()[j - 1]));
        }
    }
    proof {
        assert(resolved.keys().take(n as int) =~= resolved.keys());
        assert forall|k: Seq<char>| #[trigger]
            text::texts(out@).contains(k) <==> text::texts(targets@).contains(k) && k != path@ by {
            assert(resolved@.contains_key(k) <==> resolved.keys().contains(k));
        }
    }
    out
}

/// The notes that the note at `path` with the text `markdown` leads to, without itself, each once
/// and in ascending order.
pub fn outlinks_of(markdown: &str, path: &str) -> (r: Vec<String>)
    ensures
        lists_others(
            text::texts(r@),
            link_parser::internal_targets(link_parser::note_links(markdown@, path@)),
            path@,
        ),
{
    let targets = link_parser::internal_link_targets(markdown, path);
    others_in_order(&targets, path)
}

/// Whether `after` is the step that follows `before` when `event` was done. An event that `before`
/// does not wait for changes nothing.
pub open spec fn upsert_step(before: Upsert, event: UpsertEvent, after: Upsert) -> bool {
    match (before, event) {
        (Upsert::Read { note_id }, UpsertEvent::Read(NoteRead::Content(content))) => match after {
            Upsert::Extract { markdown } => markdown@ == content@,
            _ => false,
        },
        (Upsert::Read { note_id }, UpsertEvent::Read(NoteRead::Missing)) => match after {
            Upsert::Forget { note_id: gone } => gone@ == note_id@,
            _ => false,
        },
        (Upsert::Read { note_id }, UpsertEvent::Read(NoteRead::Failed(e))) => fails_with(after, e@),
        (Upsert::Forget { note_id }, UpsertEvent::Forgotten) => after matches Upsert::Done(Ok(_)),
        (Upsert::Extract { markdown }, UpsertEvent::Extracted(Ok(found))) => match after {
            Upsert::Store { markdown: kept, meta } => kept@ == markdown@ && meta@ == found@,
            _ => false,
        },
        (Upsert::Extract { markdown }, UpsertEvent::Extracted(Err(e))) => fails_with(after, e@),
        (Upsert::Store { markdown, meta }, UpsertEvent::Stored(Ok(_))) => match after {
            Upsert::Link { path, outlinks } => path@ == meta.path@ && lists_others(
                text::texts(outlinks@),
                link_parser::internal_targets(
                    link_parser::note_links(markdown@, meta.path@),
                ),
                meta.path@,
            ),
            _ => false,
        },
        (Upsert::Store { markdown, meta }, UpsertEvent::Stored(Err(e))) => fails_with(after, e@),
        (Upsert::Link { path, outlinks }, UpsertEvent::Linked(Ok(_))) => after matches Upsert::Done(
            Ok(_),
        ),
        (Upsert::Link { path, outlinks }, UpsertEvent::Linked(Err(e))) => fails_with(after, e@),
        _ => after == before,
    }
}

/// Whether a note's way into the index has ended with the message `error`.
pub open spec fn fails_with(after: Upsert, error: Seq<char>) -> bool {
    match after {
        Upsert::Done(Err(e)) => e@ == error,
        _ => false,
    }
}

/// The notes of the cache after `event` at the step `before`: a note that is gone leaves it, a note
/// that was put into the database comes into it.
pub open spec fn cache_after_upsert(
    before: Upsert,
    event: UpsertEvent,
    cache: Map<Seq<char>, search_index::IndexNoteView>,
) -> Map<Seq<char>, search_index::IndexNoteView> {
    match (before, event) {
        (Upsert::Forget { note_id }, UpsertEvent::Forgotten) => cache.remove(note_id@),
        (Upsert::Store { markdown, meta }, UpsertEvent::Stored(Ok(_))) => cache.insert(
            meta.path@,
            meta@,
        ),
        _ => cache,
    }
}

/// Goes on with a note on its way into the index, and keeps the cache in step with the database.
pub fn handle_upsert(
    step: Upsert,
    event: UpsertEvent,
    notes_cache: &mut StringMap<IndexNoteMeta>,
) -> (r: Upsert)
    ensures
        upsert_step(step, event, r),
        search_index::note_views(final(notes_cache)@) == cache_after_upsert(
            step,
            event,
            search_index::note_views(old(notes_cache)@),
        ),
{
    let ghost start = notes_cache@;
    match (step, event) {
        (Upsert::Read { note_id }, UpsertEvent::Read(read)) => match read {
            NoteRead::Content(markdown) => Upsert::Extract { markdown },
            NoteRead::Missing => Upsert::Forget { note_id },
            NoteRead::Failed(e) => Upsert::Done(Err(e)),
        },
        (Upsert::Forget { note_id }, UpsertEvent::Forgotten) => {
            notes_cache.remove(note_id.as_str());
            proof {
                assert(search_index::note_views(notes_cache@) =~= search_index::note_views(
                    start,
                ).remove(note_id@));
            }
            Upsert::Done(Ok(()))
        },
        (Upsert::Extract { markdown }, UpsertEvent::Extracted(found)) => match found {
            Ok(meta) => Upsert::Store { markdown, meta },
            Err(e) => Upsert::Done(Err(e)),
        },
        (Upsert::Store { markdown, meta }, UpsertEvent::Stored(stored)) => match stored {
            Ok(_) => {
                let path = meta.path.clone();
                notes_cache.insert(meta.path.clone(), meta);
                proof {
                    assert(search_index::note_views(notes_cache@) =~= search_index::note_views(
                        start,
                    ).insert(path@, meta@));
                }
                let outlinks = outlinks_of(markdown.as_str(), path.as_str());
                Upsert::Link { path, outlinks }
            },
            Err(e) => Upsert::Done(Err(e)),
        },
        (Upsert::Link { .. }, UpsertEvent::Linked(linked)) => match linked {
            Ok(_) => Upsert::Done(Ok(())),
            Err(e) => Upsert::Done(Err(e)),
        },
        (step, _) => step,
    }
}

/// What to do with a command that arrives during a run of the indexer.
#[derive(Debug, Clone, Copy, PartialEq, Eq, Structural)]
pub enum CommandKind {
    /// A run of the indexer: it waits for the end of this one.
    Index,
    /// The end of the writer: it waits too.
    Shutdown,
    /// A change to the index: it is carried out at once.
    Mutation,
}

/// The kind of a command.
pub open spec fn kind_of<P, J, R, N>(cmd: DbCommand<P, J, R, N>) -> CommandKind {
    match cmd {
        DbCommand::Rebuild(_) => CommandKind::Index,
        DbCommand::Sync(_) => CommandKind::Index,
        DbCommand::Shutdown => CommandKind::Shutdown,
        _ => CommandKind::Mutation,
    }
}

/// The kind of a command.
pub fn command_kind<P, J, R, N>(cmd: &DbCommand<P, J, R, N>) -> (r: CommandKind)
    ensures
        r == kind_of(*cmd),
{
    match cmd {
        DbCommand::Rebuild(_) => CommandKind::Index,
        DbCommand::Sync(_) => CommandKind::Index,
        DbCommand::Shutdown => CommandKind::Shutdown,
        _ => CommandKind::Mutation,
    }
}

/// A run of the indexer: the commands that wait for its end, whether its start was told, and
/// whether a further run was already asked for because of a change.
#[derive(Debug)]
pub struct IndexRun<P, J, R, N> {
    pub deferred: Vec<DbCommand<P, J, R, N>>,
    pub started: bool,
    pub sync_queued: bool,
}

/// What a run of the indexer holds.
pub struct RunView<P, J, R, N> {
    pub deferred: Seq<DbCommand<P, J, R, N>>,
    pub started: bool,
    pub sync_queued: bool,
}

impl<P, J, R, N> View for IndexRun<P, J, R, N> {
    type V = RunView<P, J, R, N>;

    open spec fn view(&self) -> RunView<P, J, R, N> {
        RunView {
            deferred: self.deferred@,
            started: self.started,
            sync_queued: self.sync_queued,
        }
    }
}

/// A run at its start.
pub open spec fn fresh_run<P, J, R, N>() -> RunView<P, J, R, N> {
    RunView { deferred: Seq::empty(), started: false, sync_queued: false }
}

/// A run to which `cmd` has come: a change leaves it as it is, any other command waits.
pub open spec fn with_command<P, J, R, N>(
    run: RunView<P, J, R, N>,
    cmd: DbCommand<P, J, R, N>,
) -> RunView<P, J, R, N> {
    if kind_of(cmd) == CommandKind::Mutation {
        run
    } else {
        RunView { deferred: run.deferred.push(cmd), ..run }
    }
}

/// A run for which the further run `job` was asked for.
pub open spec fn with_sync<P, J, R, N>(run: RunView<P, J, R, N>, job: J) -> RunView<P, J, R, N> {
    RunView { deferred: run.deferred.push(DbCommand::Sync(job)), sync_queued: true, ..run }
}

impl<P, J, R, N> IndexRun<P, J, R, N> {
    /// A run at its start.
    pub fn new() -> (r: Self)
        ensures
            r@ == fresh_run::<P, J, R, N>(),
    {
        IndexRun { deferred: Vec::new(), started: false, sync_queued: false }
    }

    /// Takes a command that arrives during the run. A change is given back: the run is to be
    /// cancelled and the change carried out at once. Any other command waits.
    pub fn receive(&mut self, cmd: DbCommand<P, J, R, N>) -> (r: Option<DbCommand<P, J, R, N>>)
        ensures
            final(self)@ == with_command(old(self)@, cmd),
            r == (if kind_of(cmd) == CommandKind::Mutation {
                Some(cmd)
            } else {
                None
            }),
    {
        match command_kind(&cmd) {
            CommandKind::Mutation => Some(cmd),
            _ => {
                self.deferred.push(cmd);
                None
            },
        }
    }

    /// Whether a further run has to be asked for after a change.
    pub fn needs_sync(&self) -> (r: bool)
        ensures
            r == !self.sync_queued,
    {
        !self.sync_queued
    }

    /// Puts the further run that a change asks for behind the commands that wait.
    pub fn queue_sync(&mut self, job: J)
        requires
            !old(self).sync_queued,
        ensures
            final(self)@ == with_sync(old(self)@, job),
    {
        self.deferred.push(DbCommand::Sync(job));
        self.sync_queued = true;
    }

    /// What to tell of the progress of the run: its start the first time, its progress after that.
    pub fn progress(&mut self, vault_id: &str, indexed: usize, total: usize) -> (r:
        IndexProgressEvent)
        ensures
            final(self)@ == (RunView { started: true, ..old(self)@ }),
            if old(self).started {
                r matches IndexProgressEvent::Progress { vault_id: v, indexed: i, total: t } && v@
                    == vault_id@ && i == indexed && t == total
            } else {
                r matches IndexProgressEvent::Started { vault_id: v, total: t } && v@ == vault_id@
                    && t == total
            },
    {
        if self.started {
            IndexProgressEvent::Progress { vault_id: vault_id.to_owned(), indexed, total }
        } else {
            self.started = true;
            IndexProgressEvent::Started { vault_id: vault_id.to_owned(), total }
        }
    }

    /// The commands that are carried out at the end of the run: those that waited, in the order in
    /// which they came, up to the end of the writer.
    pub fn into_commands(self) -> (r: Vec<DbCommand<P, J, R, N>>)
        ensures
            r@ == self.deferred@.take(first_shutdown(self.deferred@)),
    {
        let mut commands = self.deferred;
        let n = find_shutdown(&commands);
        commands.truncate(n);
        commands
    }
}

/// How many of `commands` stand before the first that ends the writer.
pub open spec fn first_shutdown<P, J, R, N>(commands: Seq<DbCommand<P, J, R, N>>) -> int
    decreases commands.len(),
{
    if commands.len() == 0 || commands[0] is Shutdown {
        0
    } else {
        1 + first_shutdown(commands.skip(1))
    }
}

/// How many of `commands` stand before the first that ends the writer.
fn find_shutdown<P, J, R, N>(commands: &Vec<DbCommand<P, J, R, N>>) -> (n: usize)
    ensures
        n == first_shutdown(commands@),
        n <= commands@.len(),
{
    let mut n: usize = 0;
    proof {
        assert(commands@.skip(0) =~= commands@);
    }
    while n < commands.len()
        invariant
            n <= commands@.len(),
            first_shutdown(commands@) == n + first_shutdown(commands@.skip(n as int)),
        decreases commands.len() - n,
    {
        proof {
            assert(commands@.skip(n as int)[0] == commands@[n as int]);
            assert(commands@.skip(n as int).skip(1) =~= commands@.skip(n + 1));
        }
        if let DbCommand::Shutdown = &commands[n] {
            return n;
        }
        n += 1;
    }
    n
}

/// What to tell of the end of a run.
pub fn run_result(vault_id: &str, result: Result<usize, String>, elapsed_ms: u64) -> (r:
    IndexProgressEvent)
    ensures
        match result {
            Ok(indexed) => r matches IndexProgressEvent::Completed {
                vault_id: v,
                indexed: i,
                elapsed_ms: e,
            } && v@ == vault_id@ && i == indexed && e == elapsed_ms,
            Err(error) => r matches IndexProgressEvent::Failed { vault_id: v, error: e } && v@
                == vault_id@ && e@ == error@,
        },
{
    match result {
        Ok(indexed) => IndexProgressEvent::Completed {
            vault_id: vault_id.to_owned(),
            indexed,
            elapsed_ms,
        },
        Err(error) => IndexProgressEvent::Failed { vault_id: vault_id.to_owned(), error },
    }
}

/// How many hits a search gives at most.
pub fn search_limit() -> (r: usize)
    ensures
        r == 50,
{
    50
}

/// How many suggestions are given at most, if `limit` was asked for.
pub fn suggestion_limit(limit: Option<usize>) -> (r: usize)
    ensures
        r == (match limit {
            Some(n) => n,
            None => 15,
        }),
{
    match limit {
        Some(n) => n,
        None => 15,
    }
}

/// Rewrites the links of the note `markdown` for its move from `old_source_path` to
/// `new_source_path` while notes move as `target_map` says.
pub fn rewrite_note_links(
    markdown: String,
    old_source_path: String,
    new_source_path: String,
    target_map: StringMap<String>,
) -> (r: RewriteResult)
    ensures
        link_rewrite::is_rewrite(
            r,
            link_rewrite::job_of(markdown@, old_source_path@, new_source_path@, target_map),
            markdown::note_nodes(markdown@),
        ),
{
    link_rewrite::rewrite_links(
        markdown.as_str(),
        old_source_path.as_str(),
        new_source_path.as_str(),
        &target_map,
    )
}

/// The note that `raw_target` names in a link of the note at `source_path`.
pub fn resolve_note_link(source_path: String, raw_target: String) -> (r: Option<String>)
    ensures
        match r {
            Some(p) => link_path::wiki_target(source_path@, raw_target@) == Some(p@),
            None => link_path::wiki_target(source_path@, raw_target@) is None,
        },
{
    link_path::resolve_wiki_target(source_path.as_str(), raw_target.as_str())
}

/// A run after `commands` have come to it, one after the other, if `job` is the further run that
/// the first change asks for.
pub open spec fn after_commands<P, J, R, N>(
    commands: Seq<DbCommand<P, J, R, N>>,
    job: J,
) -> RunView<P, J, R, N>
    decreases commands.len(),
{
    if commands.len() == 0 {
        fresh_run()
    } else {
        let run = with_command(after_commands(commands.drop_last(), job), commands.last());
        if kind_of(commands.last()) == CommandKind::Mutation && !run.sync_queued {
            with_sync(run, job)
        } else {
            run
        }
    }
}

/// How many of `commands` are changes.
pub open spec fn changes<P, J, R, N>(commands: Seq<DbCommand<P, J, R, N>>) -> nat
    decreases commands.len(),
{
    if commands.len() == 0 {
        0
    } else if kind_of(commands.last()) == CommandKind::Mutation {
        changes(commands.drop_last()) + 1
    } else {
        changes(commands.drop_last())
    }
}

/// Those of `commands` that are no changes, in the order in which they came.
pub open spec fn waiting<P, J, R, N>(commands: Seq<DbCommand<P, J, R, N>>) -> Seq<
    DbCommand<P, J, R, N>,
>
    decreases commands.len(),
{
    if commands.len() == 0 {
        Seq::empty()
    } else if kind_of(commands.last()) == CommandKind::Mutation {
        waiting(commands.drop_last())
    } else {
        waiting(commands.drop_last()).push(commands.last())
    }
}

/// How many of `commands` waited when the first change came.
pub open spec fn waiting_at_change<P, J, R, N>(commands: Seq<DbCommand<P, J, R, N>>) -> nat
    decreases commands.len(),
{
    if commands.len() == 0 {
        0
    } else if changes(commands.drop_last()) > 0 {
        waiting_at_change(commands.drop_last())
    } else {
        waiting(commands.drop_last()).len()
    }
}

/// All commands that come to a run but the changes, which are carried out at once, wait for its end
/// in the order in which they came. However many changes there are, they ask for one further run,
/// which waits behind the commands that waited when the first of them came. At the end of the run
/// the commands that wait are carried out, but for a shutdown and what waits behind it.
pub proof fn law_run_defers_all_but_changes<P, J, R, N>(
    commands: Seq<DbCommand<P, J, R, N>>,
    job: J,
)
    ensures
        ({
            let run = after_commands(commands, job);
            let at = waiting_at_change(commands) as int;
            &&& run.sync_queued <==> changes(commands) > 0
            &&& changes(commands) == 0 ==> run.deferred == waiting(commands)
            &&& changes(commands) > 0 ==> {
                &&& at < run.deferred.len()
                &&& run.deferred[at] == DbCommand::<P, J, R, N>::Sync(job)
                &&& run.deferred.remove(at) == waiting(commands)
            }
        }),
        first_shutdown(after_commands(commands, job).deferred)
            <= after_commands(commands, job).deferred.len(),
        forall|i: int|
            0 <= i < first_shutdown(after_commands(commands, job).deferred) ==> !((
            #[trigger] after_commands(commands, job).deferred[i]) is Shutdown),
        ({
            let deferred = after_commands(commands, job).deferred;
            let n = first_shutdown(deferred);
            n < deferred.len() ==> deferred[n] is Shutdown
        }),
    decreases commands.len(),
{
    lemma_first_shutdown(after_commands(commands, job).deferred);
    if commands.len() > 0 {
        let front = commands.drop_last();
        law_run_defers_all_but_changes(front, job);
        let before = after_commands(front, job);
        let run = after_commands(commands, job);
        let at = waiting_at_change(commands) as int;
        if changes(front) > 0 {
            if kind_of(commands.last()) != CommandKind::Mutation {
                assert(run.deferred =~= before.deferred.push(commands.last()));
                assert(run.deferred.remove(at) =~= before.deferred.remove(at).push(
                    commands.last(),
                ));
            }
        } else if changes(commands) > 0 {
            assert(run.deferred =~= before.deferred.push(DbCommand::Sync(job)));
            assert(run.deferred.remove(at) =~= before.deferred);
        }
    }
}

proof fn lemma_first_shutdown<P, J, R, N>(commands: Seq<DbCommand<P, J, R, N>>)
    ensures
        0 <= first_shutdown(commands) <= commands.len(),
        forall|i: int|
            0 <= i < first_shutdown(commands) ==> !((#[trigger] commands[i]) is Shutdown),
        first_shutdown(commands) < commands.len() ==> commands[first_shutdown(
            commands,
        )] is Shutdown,
    decreases commands.len(),
{
    if commands.len() > 0 && !(commands[0] is Shutdown) {
        let rest = commands.skip(1);
        lemma_first_shutdown(rest);
        assert forall|i: int| 0 <= i < first_shutdown(commands) implies !((
        #[trigger] commands[i]) is Shutdown) by {
            if i > 0 {
                assert(rest[i - 1] == commands[i]);
            }
        }
    }
}

} // verus!
