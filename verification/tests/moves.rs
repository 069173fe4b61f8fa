use otterly::note_files::{
    check_rename_target, check_unchanged, create_failure, folders_changed, rename_with_temp_path,
    Rename, RenameEvent,
};
use otterly::note_moves::{
    collect_named_moves, collect_nested_move_sources, collect_pending_moves, execute_pending_moves, is_descendant_path,
    move_failure, move_success, move_target_path, next_move_action, parent_folder_path, path_in_target,
    remove_existing_move_target, source_leaves, sources_to_probe, MoveAction, MoveEvent, MoveItem, MoveItemResult,
    MoveItemsArgs, MoveOutcome, PendingMove, Removal, SourceProbe,
};
use otterly::string_map::StringMap;

fn item(path: &str, is_folder: bool) -> MoveItem {
    MoveItem { path: path.to_string(), is_folder }
}

fn args(items: Vec<MoveItem>, target: &str) -> MoveItemsArgs {
    MoveItemsArgs {
        vault_id: "v".to_string(),
        items,
        target_folder: target.to_string(),
        overwrite: false,
    }
}

fn file() -> Option<SourceProbe> {
    Some(SourceProbe::Found { is_dir: false, is_file: true })
}

fn folder() -> Option<SourceProbe> {
    Some(SourceProbe::Found { is_dir: true, is_file: false })
}

fn refused(path: &str, new_path: &str, error: &str) -> MoveItemResult {
    MoveItemResult {
        path: path.to_string(),
        new_path: new_path.to_string(),
        success: false,
        error: Some(error.to_string()),
    }
}

fn destinations(pending: &[PendingMove]) -> Vec<(String, String)> {
    pending.iter().map(|p| (p.item.path.clone(), p.destination_path.clone())).collect()
}

#[test]
fn items_keep_their_name_in_the_target_folder() {
    assert_eq!(move_target_path("docs", "a/b.md"), Ok("docs/b.md".to_string()));
    assert_eq!(move_target_path("", "a/b.md"), Ok("b.md".to_string()));
    assert_eq!(move_target_path("docs", "a/.."), Err("invalid source path".to_string()));
}

#[test]
fn moved_items_lie_in_the_target_folder() {
    for target in ["", "docs", "docs/sub"] {
        for source in ["a.md", "x/a.md", "x//y/"] {
            let path = move_target_path(target, source).unwrap();
            assert_eq!(parent_folder_path(&path), target);
        }
    }
}

#[test]
fn second_move_to_a_folder_changes_nothing() {
    for target in ["", "docs", "docs/sub", ".", "/docs"] {
        for source in ["a.md", "x/a.md", "x//y/", "../b"] {
            let path = move_target_path(target, source).unwrap();
            assert_eq!(move_target_path(target, &path), Ok(path));
        }
    }
    for source in ["", "/", "a/.."] {
        assert_eq!(move_target_path("docs", source), Err("invalid source path".to_string()));
    }
}

#[test]
fn descendants_lie_below_a_folder() {
    assert!(is_descendant_path("a/b", "a"));
    assert!(is_descendant_path("a", "a"));
    assert!(!is_descendant_path("ab", "a"));
    assert!(!is_descendant_path("a", ""));
}

#[test]
fn results_say_what_happened() {
    assert_eq!(move_failure("a", "b", "no"), refused("a", "b", "no"));
    let done = move_success("a".to_string(), "b".to_string());
    assert!(done.success);
    assert_eq!(done.error, None);
}

#[test]
fn nested_sources_are_collected() {
    let items = vec![item("a", true), item("a/b.md", false), item("ab", true), item("a/c", true)];
    let mut nested = vec!["x".to_string()];
    collect_nested_move_sources(&items, "a", &mut nested);
    assert_eq!(nested, vec!["x".to_string(), "a/b.md".to_string(), "a/c".to_string()]);
}

#[test]
fn plain_move_is_pending() {
    let request = args(vec![item("a.md", false), item("sub", true)], "docs");
    assert_eq!(sources_to_probe(&request), vec![true, true]);
    let (results, pending) = collect_pending_moves(&request, &vec![file(), folder()]).unwrap();
    assert!(results.is_empty());
    assert_eq!(
        destinations(&pending),
        vec![
            ("a.md".to_string(), "docs/a.md".to_string()),
            ("sub".to_string(), "docs/sub".to_string())
        ]
    );
}

#[test]
fn items_are_moved_under_the_names_that_their_paths_end_in() {
    let request = args(vec![item("x\\a.md", false), item("c:b.md", false)], "docs");
    let leaves = vec![Some("a.md".to_string()), Some("b.md".to_string())];
    let (results, pending) =
        collect_named_moves(&request, &leaves, &vec![file(), file()]).unwrap();
    assert!(results.is_empty());
    assert_eq!(
        destinations(&pending),
        vec![
            ("x\\a.md".to_string(), "docs/a.md".to_string()),
            ("c:b.md".to_string(), "docs/b.md".to_string())
        ]
    );
    assert_eq!(
        collect_named_moves(&request, &vec![None, None], &vec![file(), file()]).unwrap_err(),
        "invalid source path"
    );
}

#[test]
fn names_of_the_sources_are_read() {
    assert_eq!(
        source_leaves(&vec![item("x/a.md", false), item("b/", true), item("..", true)]),
        vec![Some("a.md".to_string()), Some("b".to_string()), None]
    );
    assert_eq!(path_in_target("docs", &Some("a.md".to_string())), Ok("docs/a.md".to_string()));
    assert_eq!(path_in_target("", &Some("a.md".to_string())), Ok("a.md".to_string()));
    assert_eq!(path_in_target("docs", &None), Err("invalid source path".to_string()));
}

#[test]
fn faults_show_before_the_place_is_looked_at() {
    let request = args(
        vec![item("A.md", false), item("a.MD", false), item("", true), item("docs", true)],
        "docs/sub",
    );
    assert_eq!(sources_to_probe(&request), vec![true, false, false, false]);
    let (results, pending) =
        collect_pending_moves(&request, &vec![file(), None, None, None]).unwrap();
    assert_eq!(
        results,
        vec![
            refused("a.MD", "a.MD", "duplicate item path"),
            refused("", "", "cannot move vault root"),
            refused("docs", "docs", "cannot move folder into itself"),
        ]
    );
    assert_eq!(pending.len(), 1);
}

#[test]
fn duplicates_are_found_in_any_script() {
    let request = args(vec![item("\u{c4}.md", false), item("\u{e4}.md", false)], "docs");
    assert_eq!(sources_to_probe(&request), vec![true, false]);
}

#[test]
fn faults_show_at_the_place_of_an_item() {
    let request = args(
        vec![item("a", true), item("b", false), item("c", false), item("docs/d.md", false)],
        "docs",
    );
    let probes = vec![
        file(),
        folder(),
        Some(SourceProbe::Unreadable("not found".to_string())),
        file(),
    ];
    let (results, pending) = collect_pending_moves(&request, &probes).unwrap();
    assert_eq!(
        results,
        vec![
            refused("a", "a", "source is not a directory"),
            refused("b", "b", "source is not a file"),
            refused("c", "c", "not found"),
            refused("docs/d.md", "docs/d.md", "item already in target folder"),
        ]
    );
    assert!(pending.is_empty());
}

#[test]
fn no_item_is_moved_twice_or_into_itself() {
    let args = args(
        vec![item("a", true), item("A", true), item("n.md", false), item("", false)],
        "a/b",
    );
    let probes = vec![None, None, file(), None];
    assert_eq!(sources_to_probe(&args), vec![false, false, true, false]);
    let (results, pending) = collect_pending_moves(&args, &probes).unwrap();
    assert_eq!(
        results,
        vec![
            refused("a", "a", "cannot move folder into itself"),
            refused("A", "A", "duplicate item path"),
            refused("", "", "cannot move vault root"),
        ]
    );
    assert_eq!(destinations(&pending), vec![("n.md".to_string(), "a/b/n.md".to_string())]);
}

#[test]
fn unresolved_item_ends_the_whole_move() {
    let request = args(vec![item("a.md", false), item("b.md", false)], "docs");
    let probes = vec![Some(SourceProbe::Unresolved("escapes".to_string())), file()];
    assert_eq!(collect_pending_moves(&request, &probes).unwrap_err(), "escapes");
}

#[test]
fn item_without_a_name_ends_the_whole_move() {
    let request = args(vec![item("a/..", true)], "docs");
    assert_eq!(
        collect_pending_moves(&request, &vec![folder()]).unwrap_err(),
        "invalid source path"
    );
}

#[test]
fn items_in_a_moved_folder_are_not_moved() {
    let request = args(vec![item("a/b.md", false), item("a", true), item("c.md", false)], "docs");
    let (results, pending) =
        collect_pending_moves(&request, &vec![file(), folder(), file()]).unwrap();
    assert_eq!(
        results,
        vec![refused(
            "a/b.md",
            "docs/b.md",
            "item is contained within another moved folder"
        )]
    );
    assert_eq!(
        destinations(&pending),
        vec![
            ("a".to_string(), "docs/a".to_string()),
            ("c.md".to_string(), "docs/c.md".to_string())
        ]
    );
    assert_eq!(results.len() + pending.len(), request.items.len());
}

#[test]
fn moves_go_on_step_by_step() {
    let next = |overwrite: bool, event: MoveEvent| next_move_action(overwrite, event);
    assert!(matches!(next(false, MoveEvent::Checked { exists: false }), MoveAction::Rename));
    assert!(matches!(
        next(false, MoveEvent::Checked { exists: true }),
        MoveAction::Settle(MoveOutcome::TargetExists)
    ));
    assert!(matches!(next(true, MoveEvent::Checked { exists: true }), MoveAction::Clear));
    assert!(matches!(next(true, MoveEvent::Cleared(Ok(()))), MoveAction::Rename));
    assert!(matches!(
        next(true, MoveEvent::Cleared(Err("x".to_string()))),
        MoveAction::Settle(MoveOutcome::ClearFailed(_))
    ));
    assert!(matches!(
        next(true, MoveEvent::Renamed(Ok(()))),
        MoveAction::Settle(MoveOutcome::Moved)
    ));
    assert!(matches!(
        next(true, MoveEvent::Renamed(Err("x".to_string()))),
        MoveAction::Settle(MoveOutcome::RenameFailed(_))
    ));
}

#[test]
fn only_like_is_overwritten_with_like() {
    assert_eq!(remove_existing_move_target(true, true, false), Ok(Removal::Nothing));
    assert_eq!(remove_existing_move_target(true, false, true), Ok(Removal::Folder));
    assert_eq!(remove_existing_move_target(false, false, false), Ok(Removal::File));
    assert_eq!(
        remove_existing_move_target(true, false, false),
        Err("cannot overwrite file with folder".to_string())
    );
    assert_eq!(
        remove_existing_move_target(false, false, true),
        Err("cannot overwrite folder with note".to_string())
    );
}

#[test]
fn outcomes_become_results() {
    let pending = |path: &str, to: &str| PendingMove {
        item: item(path, false),
        destination_path: to.to_string(),
    };
    let moves = vec![
        pending("x/a.md", "docs/a.md"),
        pending("b.md", "docs/b.md"),
        pending("c.md", "docs/c.md"),
        pending("y/d.md", "docs/d.md"),
    ];
    let outcomes = vec![
        MoveOutcome::Moved,
        MoveOutcome::TargetExists,
        MoveOutcome::ClearFailed("busy".to_string()),
        MoveOutcome::RenameFailed("denied".to_string()),
    ];
    let mut touched: StringMap<()> = StringMap::new();
    let results = execute_pending_moves(moves, &outcomes, &mut touched);
    assert!(results[0].success);
    assert_eq!(results[0].new_path, "docs/a.md");
    assert_eq!(results[1], refused("b.md", "docs/b.md", "target already exists"));
    assert_eq!(results[2], refused("c.md", "docs/c.md", "busy"));
    assert_eq!(results[3], refused("y/d.md", "docs/d.md", "denied"));
    assert_eq!(touched.len(), 2);
    assert!(touched.contains_key("x"));
    assert!(touched.contains_key("docs"));
}

#[test]
fn changed_files_are_not_overwritten() {
    assert_eq!(check_unchanged(None, None), Ok(()));
    assert_eq!(check_unchanged(None, Some(5)), Ok(()));
    assert_eq!(check_unchanged(Some(5), Some(5)), Ok(()));
    assert_eq!(check_unchanged(Some(5), Some(6)), Err("conflict:mtime_mismatch".to_string()));
    assert_eq!(check_unchanged(Some(5), None), Err("conflict:file_missing".to_string()));
}

#[test]
fn creation_and_rename_do_not_overwrite() {
    assert_eq!(create_failure(true, "x".to_string()), "note already exists");
    assert_eq!(create_failure(false, "x".to_string()), "x");
    assert_eq!(check_rename_target(false, false), Ok(()));
    assert_eq!(check_rename_target(true, true), Ok(()));
    assert_eq!(check_rename_target(true, false), Err("note already exists".to_string()));
}

#[test]
fn renames_change_one_or_two_folders() {
    assert_eq!(folders_changed("a/x.md", "a/y.md"), vec!["a".to_string()]);
    assert_eq!(folders_changed("x.md", "a/y.md"), vec!["".to_string(), "a".to_string()]);
}

fn begin(now: u64) -> Rename {
    rename_with_temp_path(false, true, Some(b"a.md".to_vec()), now)
}

#[test]
fn rename_goes_by_way_of_a_temporary_name() {
    let step = begin(12);
    match &step {
        Rename::Probe { temp_name, .. } => assert_eq!(temp_name, ".a.md.rename.12.tmp"),
        _ => panic!("{:?}", step),
    }
    let step = step.advance(RenameEvent::Probed { taken: true, now_ms: 13 });
    match &step {
        Rename::Probe { temp_name, attempt, .. } => {
            assert_eq!(temp_name, ".a.md.rename.13.1.tmp");
            assert_eq!(*attempt, 1);
        }
        _ => panic!("{:?}", step),
    }
    let step = step.advance(RenameEvent::Probed { taken: false, now_ms: 14 });
    assert!(matches!(&step, Rename::MoveAside { temp_name } if temp_name == ".a.md.rename.13.1.tmp"));
    let step = step.advance(RenameEvent::Moved(Ok(())));
    assert!(matches!(step, Rename::MoveIn { .. }));
    let step = step.advance(RenameEvent::Moved(Ok(())));
    assert!(matches!(step, Rename::Done(Ok(()))));
}

#[test]
fn rename_onto_itself_is_done_at_once() {
    assert!(matches!(rename_with_temp_path(true, false, None, 1), Rename::Done(Ok(()))));
}

fn error_of(step: Rename) -> String {
    match step {
        Rename::Done(Err(e)) => e,
        _ => panic!("{:?}", step),
    }
}

#[test]
fn rename_needs_a_directory_and_a_name() {
    let name = || Some(b"a".to_vec());
    assert_eq!(error_of(rename_with_temp_path(false, false, name(), 1)), "invalid source path");
    assert_eq!(error_of(rename_with_temp_path(false, true, None, 1)), "invalid source filename");
    let broken = Some(vec![0xff]);
    assert_eq!(error_of(rename_with_temp_path(false, true, broken, 1)), "invalid source filename");
}

#[test]
fn failed_rename_is_rolled_back() {
    let fail = |e: &str| RenameEvent::Moved(Err(e.to_string()));
    let ready = || begin(1).advance(RenameEvent::Probed { taken: false, now_ms: 1 });
    assert_eq!(error_of(ready().advance(fail("aside"))), "aside");
    let back = || ready().advance(RenameEvent::Moved(Ok(()))).advance(fail("in"));
    assert!(matches!(back(), Rename::MoveBack { .. }));
    assert_eq!(error_of(back().advance(RenameEvent::Moved(Ok(())))), "in");
    assert_eq!(
        error_of(back().advance(fail("back"))),
        "rename failed: in; rollback failed: back"
    );
}
