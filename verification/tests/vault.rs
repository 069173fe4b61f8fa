use otterly::vault_lookup::{
    begin_lookup, rename_target_under, safe_vault_abs, safe_vault_abs_for_write,
    safe_vault_rename_target_abs, split_rename_target, LinkProbe, LookupEvent, VaultLookup,
};
use otterly::vault_path::{
    file_extension, file_stem, leaf_name, parse_safe_relative_path, path_file_name, read_path,
    safe_names, AbsPath, PathPart, PathReading,
};

fn name(text: &str) -> PathPart {
    PathPart::Name(text.to_string())
}

fn reading(absolute: bool, parts: Vec<PathPart>) -> PathReading {
    PathReading { absolute, parts }
}

fn path_file_stem(path: &str) -> Option<String> {
    file_stem(&path_file_name(path))
}

fn path_extension(path: &str) -> Option<String> {
    file_extension(&path_file_name(path))
}

fn abs(path: &str) -> AbsPath {
    AbsPath {
        names: path.split('/').filter(|p| !p.is_empty()).map(|p| p.as_bytes().to_vec()).collect(),
    }
}

fn shown(path: &AbsPath) -> String {
    path.names.iter().map(|n| format!("/{}", String::from_utf8_lossy(n))).collect()
}

fn found(path: &str) -> LookupEvent {
    LookupEvent::Canonical(Ok(abs(path)))
}

fn result(lookup: &VaultLookup) -> Result<String, String> {
    match lookup {
        VaultLookup::Done(Ok(path)) => Ok(shown(path)),
        VaultLookup::Done(Err(e)) => Err(e.clone()),
        _ => panic!("not done: {:?}", lookup),
    }
}

#[test]
fn accepted_paths_become_names() {
    assert_eq!(
        parse_safe_relative_path("a//b/./c.md"),
        Ok(vec!["a".to_string(), "b".to_string(), "c.md".to_string()])
    );
    assert_eq!(parse_safe_relative_path(""), Ok(Vec::new()));
    assert_eq!(parse_safe_relative_path("a/"), Ok(vec!["a".to_string()]));
}

#[test]
fn absolute_paths_are_refused() {
    assert_eq!(parse_safe_relative_path("/a"), Err("note path must be relative".to_string()));
}

#[test]
fn paths_with_dots_are_refused() {
    let refused = Err("note path contains invalid segments".to_string());
    assert_eq!(parse_safe_relative_path("../a"), refused);
    assert_eq!(parse_safe_relative_path("a/../b"), refused);
    assert_eq!(parse_safe_relative_path("./a"), refused);
    assert_eq!(parse_safe_relative_path("."), refused);
}

#[test]
fn names_have_stems_and_extensions() {
    assert_eq!(path_file_name("a/b.md"), Some("b.md".to_string()));
    assert_eq!(path_file_name("a/b/."), Some("b".to_string()));
    assert_eq!(path_file_name("a/.."), None);
    assert_eq!(path_file_name("/"), None);
    assert_eq!(path_file_stem("a/b.tar.gz"), Some("b.tar".to_string()));
    assert_eq!(path_file_stem(".hidden"), Some(".hidden".to_string()));
    assert_eq!(path_extension("a/b.tar.gz"), Some("gz".to_string()));
    assert_eq!(path_extension("a."), Some("".to_string()));
    assert_eq!(path_extension(".hidden"), None);
    assert_eq!(path_extension("a"), None);
}

#[test]
fn paths_agree_with_the_standard_library() {
    for path in ["a", "a.b", ".a", "..", "a/..", "a/./b.c", "a.", "/x/y.z/", "", ".", "./q.r", "a..b"] {
        let p = std::path::Path::new(path);
        let stem = p.file_stem().map(|s| s.to_str().unwrap().to_string());
        let ext = p.extension().map(|s| s.to_str().unwrap().to_string());
        assert_eq!(path_file_stem(path), stem);
        assert_eq!(path_extension(path), ext);
    }
}

#[test]
fn paths_are_read_as_components() {
    assert_eq!(
        read_path("a//b/./../c.md/"),
        reading(false, vec![name("a"), name("b"), PathPart::Parent, name("c.md")])
    );
    assert_eq!(read_path("./a").parts, vec![PathPart::Current, name("a")]);
    assert_eq!(read_path("/a/.").parts, vec![PathPart::Root, name("a")]);
    assert_eq!(read_path(""), reading(false, Vec::new()));
    assert_eq!(read_path("/a").absolute, std::path::Path::new("/a").is_absolute());
}

#[test]
fn separators_are_those_of_the_machine() {
    let path = "docs\\a.md";
    let leaf = std::path::Path::new(path).file_name().map(|n| n.to_str().unwrap().to_string());
    assert_eq!(path_file_name(path), leaf);
    let rel = read_path(path).parts.len();
    assert_eq!(rel, std::path::Path::new(path).components().count());
}

#[test]
fn only_names_are_accepted_of_any_reading() {
    let segments = || Err("note path contains invalid segments".to_string());
    assert_eq!(
        safe_names(reading(false, vec![name("a"), name("b\\c")])),
        Ok(vec!["a".to_string(), "b\\c".to_string()])
    );
    for odd in [PathPart::Prefix, PathPart::Root, PathPart::Current, PathPart::Parent] {
        assert_eq!(safe_names(reading(false, vec![odd, name("a")])), segments());
    }
    let absolute = reading(true, vec![PathPart::Prefix, PathPart::Root, name("a")]);
    assert_eq!(safe_names(absolute), Err("note path must be relative".to_string()));
}

#[test]
fn search_begins_from_any_reading() {
    let lookup = begin_lookup(reading(false, vec![name("docs"), name("a.md")]), true);
    match lookup {
        VaultLookup::Root { rel, for_write } => {
            assert_eq!(rel, vec!["docs".to_string(), "a.md".to_string()]);
            assert!(for_write);
        }
        _ => panic!("{:?}", lookup),
    }
    let lookup = begin_lookup(reading(false, vec![PathPart::Root, name("a.md")]), false);
    assert_eq!(result(&lookup), Err("note path contains invalid segments".to_string()));
    let lookup = begin_lookup(reading(false, vec![PathPart::Prefix, name("a.md")]), false);
    assert_eq!(result(&lookup), Err("note path contains invalid segments".to_string()));
}

#[test]
fn last_component_is_the_name_of_a_path() {
    assert_eq!(leaf_name(reading(false, vec![name("a"), name("b")])), Some("b".to_string()));
    assert_eq!(leaf_name(reading(true, vec![PathPart::Prefix, PathPart::Root])), None);
    assert_eq!(leaf_name(reading(false, vec![name("a"), PathPart::Parent])), None);
    assert_eq!(leaf_name(reading(false, Vec::new())), None);
}

#[test]
fn existing_note_is_found_at_its_canonical_place() {
    let lookup = safe_vault_abs("docs/a.md");
    let lookup = lookup.advance(found("/vault"));
    assert!(matches!(lookup, VaultLookup::Probe { up: 0, .. }));
    let lookup = lookup.advance(LookupEvent::Exists(true));
    let lookup = lookup.advance(found("/vault/real/a.md"));
    assert_eq!(result(&lookup), Ok("/vault/real/a.md".to_string()));
}

#[test]
fn missing_note_is_placed_below_the_nearest_directory() {
    let lookup = safe_vault_abs("docs/new/a.md").advance(found("/vault"));
    let lookup = lookup.advance(LookupEvent::Exists(false)).advance(LookupEvent::Exists(false));
    assert!(matches!(lookup, VaultLookup::Probe { up: 2, .. }));
    let lookup = lookup.advance(LookupEvent::Exists(true)).advance(found("/vault/d"));
    assert_eq!(result(&lookup), Ok("/vault/d/new/a.md".to_string()));
}

#[test]
fn notes_outside_the_vault_are_refused() {
    let lookup = safe_vault_abs("link/a.md").advance(found("/vault"));
    let lookup = lookup.advance(LookupEvent::Exists(true)).advance(found("/elsewhere/a.md"));
    assert_eq!(result(&lookup), Err("note path escapes vault".to_string()));
}

#[test]
fn search_that_finds_nothing_fails() {
    let mut lookup = safe_vault_abs("a.md").advance(found("/vault"));
    for _ in 0..3 {
        lookup = lookup.advance(LookupEvent::Exists(false));
    }
    assert_eq!(result(&lookup), Err("note path escapes vault".to_string()));
}

#[test]
fn errors_end_the_search() {
    let lookup = safe_vault_abs("a.md").advance(LookupEvent::Canonical(Err("gone".to_string())));
    assert_eq!(result(&lookup), Err("gone".to_string()));
    let lookup = safe_vault_abs("../a.md");
    assert_eq!(result(&lookup), Err("note path contains invalid segments".to_string()));
    let lookup = safe_vault_abs("a.md").advance(found("/v")).advance(LookupEvent::Exists(true));
    let lookup = lookup.advance(LookupEvent::Canonical(Err("denied".to_string())));
    assert_eq!(result(&lookup), Err("denied".to_string()));
}

#[test]
fn writes_go_through_no_symbolic_link() {
    let lookup = safe_vault_abs_for_write("docs/a.md").advance(found("/vault"));
    assert!(matches!(lookup, VaultLookup::Link { depth: 0, .. }));
    let lookup = lookup.advance(LookupEvent::Link(LinkProbe::Plain));
    assert!(matches!(lookup, VaultLookup::Link { depth: 1, .. }));
    let lookup = lookup.advance(LookupEvent::Link(LinkProbe::Symlink));
    assert_eq!(result(&lookup), Err("note path contains symlink component".to_string()));
}

#[test]
fn look_for_links_ends_at_a_missing_name() {
    let lookup = safe_vault_abs_for_write("docs/a.md").advance(found("/vault"));
    let lookup = lookup.advance(LookupEvent::Link(LinkProbe::Missing));
    assert!(matches!(lookup, VaultLookup::Base { .. }));
    let lookup = lookup.advance(found("/vault")).advance(LookupEvent::Exists(false));
    let lookup = lookup.advance(LookupEvent::Exists(false)).advance(LookupEvent::Exists(true));
    let lookup = lookup.advance(found("/vault"));
    assert_eq!(result(&lookup), Ok("/vault/docs/a.md".to_string()));
}

#[test]
fn unreadable_name_ends_a_write() {
    let lookup = safe_vault_abs_for_write("a.md").advance(found("/vault"));
    let probe = LinkProbe::Unreadable("denied".to_string());
    assert_eq!(result(&lookup.advance(LookupEvent::Link(probe))), Err("denied".to_string()));
}

#[test]
fn events_that_are_not_waited_for_change_nothing() {
    let lookup = safe_vault_abs("a.md").advance(LookupEvent::Exists(true));
    assert!(matches!(lookup, VaultLookup::Root { for_write: false, .. }));
}

#[test]
fn rename_targets_have_a_leaf() {
    let target = safe_vault_rename_target_abs("a/b/c.md").unwrap();
    assert_eq!(target.parent, vec!["a".to_string(), "b".to_string()]);
    assert_eq!(target.leaf, "c.md");
    assert_eq!(
        safe_vault_rename_target_abs("").unwrap_err(),
        "note path must include a leaf name"
    );
    assert_eq!(safe_vault_rename_target_abs("/a").unwrap_err(), "note path must be relative");
}

#[test]
fn rename_targets_are_split_in_any_reading() {
    let target = split_rename_target(reading(false, vec![name("a"), name("b.md")])).unwrap();
    assert_eq!(target.parent, vec!["a".to_string()]);
    assert_eq!(target.leaf, "b.md");
    assert_eq!(
        split_rename_target(reading(false, vec![PathPart::Prefix, name("b.md")])).unwrap_err(),
        "note path contains invalid segments"
    );
    assert_eq!(
        split_rename_target(reading(false, Vec::new())).unwrap_err(),
        "note path must include a leaf name"
    );
}

#[test]
fn rename_targets_stay_in_the_vault() {
    let target = rename_target_under(&abs("/v"), &abs("/v/docs"), "a.md").unwrap();
    assert_eq!(shown(&target), "/v/docs/a.md");
    assert_eq!(
        rename_target_under(&abs("/v"), &abs("/other"), "a.md").unwrap_err(),
        "note path escapes vault"
    );
}
