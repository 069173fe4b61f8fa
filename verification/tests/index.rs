use otterly::index_run::{
    command_kind, handle_upsert, others_in_order, outlinks_of, resolve_note_link,
    rewrite_note_links, run_result, search_limit, suggestion_limit, CommandKind, IndexRun,
    NoteRead, Upsert, UpsertEvent,
};
use otterly::search_index::{
    dispatch_command, DbCommand, DbOutcome, IndexNoteMeta, IndexProgressEvent, LoopAction,
};
use otterly::string_map::StringMap;

type Command = DbCommand<(), u32, (), ()>;

fn note(path: &str) -> IndexNoteMeta {
    IndexNoteMeta {
        id: path.to_string(),
        path: path.to_string(),
        title: format!("title of {}", path),
        name: "name".to_string(),
        mtime_ms: 100,
        size_bytes: 10,
    }
}

fn cache(paths: &[&str]) -> StringMap<IndexNoteMeta> {
    let mut map = StringMap::new();
    for path in paths {
        map.insert(path.to_string(), note(path));
    }
    map
}

fn keys(map: &StringMap<IndexNoteMeta>) -> Vec<String> {
    (0..map.len()).map(|i| map.key_at(i).clone()).collect()
}

fn strings(values: &[&str]) -> Vec<String> {
    values.iter().map(|v| v.to_string()).collect()
}

#[test]
fn removed_notes_leave_the_cache() {
    let mut notes = cache(&["a.md", "b.md", "c.md", "d.md"]);
    let one: Command = DbCommand::RemoveNote { note_id: "a.md".to_string(), reply: () };
    assert_eq!(dispatch_command(&one, DbOutcome::Failed, &mut notes), LoopAction::Continue);
    assert_eq!(notes.len(), 4);
    assert_eq!(dispatch_command(&one, DbOutcome::Done, &mut notes), LoopAction::Continue);
    assert_eq!(keys(&notes), strings(&["b.md", "c.md", "d.md"]));
    let more: Command =
        DbCommand::RemoveNotes { note_ids: strings(&["b.md", "x.md", "d.md"]), reply: () };
    dispatch_command(&more, DbOutcome::Done, &mut notes);
    assert_eq!(keys(&notes), strings(&["c.md"]));
}

#[test]
fn notes_below_a_prefix_leave_the_cache() {
    let mut notes = cache(&["docs/a.md", "docs/sub/b.md", "docs2/c.md"]);
    let cmd: Command =
        DbCommand::RemoveNotesByPrefix { prefix: "docs/".to_string(), reply: () };
    dispatch_command(&cmd, DbOutcome::Done, &mut notes);
    assert_eq!(keys(&notes), strings(&["docs2/c.md"]));
}

#[test]
fn renamed_folder_moves_its_notes_in_the_cache() {
    let mut notes = cache(&["old/a.md", "old/b.md", "older.md"]);
    let cmd: Command = DbCommand::RenamePaths {
        old_prefix: "old/".to_string(),
        new_prefix: "new/".to_string(),
        reply: (),
    };
    dispatch_command(&cmd, DbOutcome::Renamed(0), &mut notes);
    assert_eq!(keys(&notes), strings(&["old/a.md", "old/b.md", "older.md"]));
    dispatch_command(&cmd, DbOutcome::Renamed(2), &mut notes);
    assert_eq!(keys(&notes), strings(&["new/a.md", "new/b.md", "older.md"]));
    let moved = notes.get("new/a.md").unwrap();
    assert_eq!((moved.id.as_str(), moved.path.as_str()), ("new/a.md", "new/a.md"));
    assert_eq!(moved.title, "title of old/a.md");
}

#[test]
fn folder_can_be_renamed_into_itself() {
    let mut notes = cache(&["a/b/x.md", "a/x.md"]);
    let cmd: Command = DbCommand::RenamePaths {
        old_prefix: "a/".to_string(),
        new_prefix: "a/b/".to_string(),
        reply: (),
    };
    dispatch_command(&cmd, DbOutcome::Renamed(2), &mut notes);
    assert_eq!(keys(&notes), strings(&["a/b/b/x.md", "a/b/x.md"]));
    assert_eq!(notes.get("a/b/x.md").unwrap().title, "title of a/x.md");
}

#[test]
fn renamed_note_moves_in_the_cache_and_back() {
    let mut notes = cache(&["a.md"]);
    let rename = |from: &str, to: &str| -> Command {
        DbCommand::RenamePath { old_path: from.to_string(), new_path: to.to_string(), reply: () }
    };
    dispatch_command(&rename("a.md", "b.md"), DbOutcome::Done, &mut notes);
    assert_eq!(notes.get("b.md").unwrap().id, "b.md");
    dispatch_command(&rename("x.md", "y.md"), DbOutcome::Done, &mut notes);
    assert_eq!(keys(&notes), strings(&["b.md"]));
    dispatch_command(&rename("b.md", "a.md"), DbOutcome::Done, &mut notes);
    assert_eq!(notes.get("a.md"), Some(&note("a.md")));
    assert_eq!(notes.len(), 1);
}

#[test]
fn cache_is_replaced_after_a_run() {
    let mut notes = cache(&["a.md"]);
    let sync: Command = DbCommand::Sync(1);
    assert_eq!(
        dispatch_command(&sync, DbOutcome::Reloaded(cache(&["b.md"])), &mut notes),
        LoopAction::Continue
    );
    assert_eq!(keys(&notes), strings(&["b.md"]));
    dispatch_command(&sync, DbOutcome::Failed, &mut notes);
    assert_eq!(keys(&notes), strings(&["b.md"]));
    let rebuild: Command = DbCommand::Rebuild(1);
    dispatch_command(&rebuild, DbOutcome::Reloaded(cache(&[])), &mut notes);
    assert_eq!(notes.len(), 0);
}

#[test]
fn shutdown_ends_the_writer() {
    let mut notes = cache(&["a.md"]);
    let cmd: Command = DbCommand::Shutdown;
    assert_eq!(dispatch_command(&cmd, DbOutcome::Done, &mut notes), LoopAction::Break);
    assert_eq!(notes.len(), 1);
}

#[test]
fn outlinks_are_sorted_and_unique() {
    assert_eq!(
        others_in_order(&strings(&["c.md", "a.md", "s.md", "c.md"]), "s.md"),
        strings(&["a.md", "c.md"])
    );
    assert_eq!(
        outlinks_of("[[c]] [a](a.md) [[s]] [[c|x]]", "s.md"),
        strings(&["a.md", "c.md"])
    );
}

#[test]
fn note_goes_into_the_index_step_by_step() {
    let mut notes = cache(&[]);
    let step = Upsert::Read { note_id: "a.md".to_string() };
    let read = UpsertEvent::Read(NoteRead::Content("[[b]] [[a]]".to_string()));
    let step = handle_upsert(step, read, &mut notes);
    assert!(matches!(step, Upsert::Extract { .. }));
    let step = handle_upsert(step, UpsertEvent::Extracted(Ok(note("a.md"))), &mut notes);
    assert!(matches!(step, Upsert::Store { .. }));
    assert_eq!(notes.len(), 0);
    let step = handle_upsert(step, UpsertEvent::Stored(Ok(())), &mut notes);
    assert_eq!(keys(&notes), strings(&["a.md"]));
    match &step {
        Upsert::Link { path, outlinks } => {
            assert_eq!(path, "a.md");
            assert_eq!(outlinks, &strings(&["b.md"]));
        }
        _ => panic!("{:?}", step),
    }
    let step = handle_upsert(step, UpsertEvent::Linked(Ok(())), &mut notes);
    assert!(matches!(step, Upsert::Done(Ok(()))));
}

#[test]
fn missing_note_leaves_the_index() {
    let mut notes = cache(&["a.md", "b.md"]);
    let step = Upsert::Read { note_id: "a.md".to_string() };
    let step = handle_upsert(step, UpsertEvent::Read(NoteRead::Missing), &mut notes);
    assert!(matches!(&step, Upsert::Forget { note_id } if note_id == "a.md"));
    let step = handle_upsert(step, UpsertEvent::Forgotten, &mut notes);
    assert!(matches!(step, Upsert::Done(Ok(()))));
    assert_eq!(keys(&notes), strings(&["b.md"]));
}

#[test]
fn each_step_into_the_index_can_fail() {
    let mut notes = cache(&[]);
    let fails = |step: Upsert, event: UpsertEvent, notes: &mut StringMap<IndexNoteMeta>| {
        match handle_upsert(step, event, notes) {
            Upsert::Done(Err(e)) => e,
            other => panic!("{:?}", other),
        }
    };
    let read = Upsert::Read { note_id: "a".to_string() };
    let event = UpsertEvent::Read(NoteRead::Failed("read".to_string()));
    assert_eq!(fails(read, event, &mut notes), "read");
    let extract = Upsert::Extract { markdown: String::new() };
    let event = UpsertEvent::Extracted(Err("meta".to_string()));
    assert_eq!(fails(extract, event, &mut notes), "meta");
    let store = Upsert::Store { markdown: String::new(), meta: note("a.md") };
    let event = UpsertEvent::Stored(Err("store".to_string()));
    assert_eq!(fails(store, event, &mut notes), "store");
    assert_eq!(notes.len(), 0);
    let link = Upsert::Link { path: "a.md".to_string(), outlinks: Vec::new() };
    let event = UpsertEvent::Linked(Err("link".to_string()));
    assert_eq!(fails(link, event, &mut notes), "link");
    let waiting = Upsert::Read { note_id: "a".to_string() };
    let step = handle_upsert(waiting, UpsertEvent::Forgotten, &mut notes);
    assert!(matches!(step, Upsert::Read { .. }));
}

#[test]
fn commands_have_kinds() {
    let sync: Command = DbCommand::Sync(1);
    let rebuild: Command = DbCommand::Rebuild(1);
    let stop: Command = DbCommand::Shutdown;
    let change: Command = DbCommand::RemoveNote { note_id: "a".to_string(), reply: () };
    assert_eq!(command_kind(&sync), CommandKind::Index);
    assert_eq!(command_kind(&rebuild), CommandKind::Index);
    assert_eq!(command_kind(&stop), CommandKind::Shutdown);
    assert_eq!(command_kind(&change), CommandKind::Mutation);
}

#[test]
fn run_carries_out_changes_and_defers_the_rest() {
    let mut run: IndexRun<(), u32, (), ()> = IndexRun::new();
    assert!(run.receive(DbCommand::Rebuild(1)).is_none());
    let change = || DbCommand::RemoveNote { note_id: "a".to_string(), reply: () };
    assert!(run.receive(change()).is_some());
    assert!(run.needs_sync());
    run.queue_sync(2);
    assert!(run.receive(change()).is_some());
    assert!(!run.needs_sync());
    assert!(run.receive(DbCommand::Sync(3)).is_none());
    let jobs: Vec<u32> = run
        .into_commands()
        .into_iter()
        .map(|c| match c {
            DbCommand::Rebuild(job) | DbCommand::Sync(job) => job,
            _ => 0,
        })
        .collect();
    assert_eq!(jobs, vec![1, 2, 3]);
}

#[test]
fn commands_behind_a_shutdown_are_not_carried_out() {
    let mut run: IndexRun<(), u32, (), ()> = IndexRun::new();
    run.receive(DbCommand::Sync(1));
    run.receive(DbCommand::Shutdown);
    run.receive(DbCommand::Sync(2));
    let left = run.into_commands();
    assert_eq!(left.len(), 1);
    assert!(matches!(left[0], DbCommand::Sync(1)));
}

#[test]
fn start_of_a_run_is_told_once() {
    let mut run: IndexRun<(), u32, (), ()> = IndexRun::new();
    assert_eq!(
        run.progress("v", 0, 9),
        IndexProgressEvent::Started { vault_id: "v".to_string(), total: 9 }
    );
    assert_eq!(
        run.progress("v", 4, 9),
        IndexProgressEvent::Progress { vault_id: "v".to_string(), indexed: 4, total: 9 }
    );
}

#[test]
fn end_of_a_run_is_told() {
    assert_eq!(
        run_result("v", Ok(3), 20),
        IndexProgressEvent::Completed { vault_id: "v".to_string(), indexed: 3, elapsed_ms: 20 }
    );
    assert_eq!(
        run_result("v", Err("broken".to_string()), 20),
        IndexProgressEvent::Failed { vault_id: "v".to_string(), error: "broken".to_string() }
    );
}

#[test]
fn searches_have_limits() {
    assert_eq!(search_limit(), 50);
    assert_eq!(suggestion_limit(None), 15);
    assert_eq!(suggestion_limit(Some(3)), 3);
}

#[test]
fn link_commands_take_owned_texts() {
    let mut map = StringMap::new();
    map.insert("a.md".to_string(), "b.md".to_string());
    let result = rewrite_note_links(
        "[[a]]".to_string(),
        "s.md".to_string(),
        "s.md".to_string(),
        map,
    );
    assert_eq!(result.markdown, "[[b]]");
    assert_eq!(
        resolve_note_link("docs/s.md".to_string(), "./a".to_string()),
        Some("docs/a.md".to_string())
    );
    assert_eq!(resolve_note_link("s.md".to_string(), "../a".to_string()), None);
}
