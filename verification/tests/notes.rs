use otterly::folder_cache::{
    evict_folder_cache_if_needed, folder_cache, folder_cache_key, get_or_scan_folder_entries,
    invalidate_folder_cache, invalidate_folder_parent_cache, invalidate_note_parent_folder_cache,
    keep_scanned_entries, purge_expired_folder_cache, FolderCacheEntry, FolderEntry,
    FOLDER_CACHE_MAX_ENTRIES, FOLDER_CACHE_TTL_NANOS,
};
use otterly::folder_listing::{
    check_folder_delete, check_folder_name, check_folder_rename, ensure_directory,
    get_folder_stats, is_listed_folder, list_folder_contents, list_folders, page_contents,
    resolve_folder_abs, scan_folder_entries, FolderStats, ScannedEntry, WalkedEntry,
};
use otterly::image_asset::{
    asset_leaves, asset_place, asset_place_for, extension_for_leaf, image_extension, sanitize_stem,
    AssetLeaves, AssetPlace, WriteImageAssetArgs,
};
use otterly::note_meta::{
    build_note_meta, extract_title, file_meta, is_note_file, list_notes, name_from_rel_path,
    title_in, NoteMeta,
};
use otterly::vault_lookup::VaultLookup;

fn entry(name: &str, is_dir: bool) -> FolderEntry {
    FolderEntry { name: name.to_string(), is_dir }
}

fn meta(path: &str, title: &str) -> NoteMeta {
    build_note_meta(path, title.to_string(), 1, 2)
}

#[test]
fn note_names_lose_folder_and_extension() {
    assert_eq!(name_from_rel_path("a/b/note.md"), "note");
    assert_eq!(name_from_rel_path("note.MD"), "note.MD");
    assert_eq!(name_from_rel_path("a/"), "");
}

#[test]
fn titles_come_from_the_first_line() {
    assert_eq!(title_in("\n  \n# Title  \nmore", "stem"), "Title");
    assert_eq!(title_in("text\n# Title", "stem"), "stem");
    assert_eq!(title_in("## Second", "stem"), "stem");
    assert_eq!(title_in("#Title", "stem"), "stem");
    assert_eq!(title_in("", "stem"), "stem");
    assert_eq!(title_in("\r\n# Carriage\r\n", "stem"), "Carriage");
}

#[test]
fn titles_are_read_from_bytes() {
    assert_eq!(extract_title(b"note.md", b"# T\xff"), "T\u{fffd}");
    assert_eq!(extract_title(b"no\xffte.md", b""), "no\u{fffd}te");
    assert_eq!(extract_title(b".hidden", b""), ".hidden");
    assert_eq!(extract_title("\u{e4}.b.md".as_bytes(), b"text"), "\u{e4}.b");
}

#[test]
fn file_facts_are_shown_as_signed_numbers() {
    assert_eq!(file_meta(10, Some(1_700_000_000_000)), (1_700_000_000_000, 10));
    assert_eq!(file_meta(0, None), (0, 0));
    assert_eq!(file_meta(u64::MAX, Some(u128::from(u64::MAX))), (-1, -1));
}

#[test]
fn note_meta_repeats_the_path() {
    let note = meta("a/b.md", "T");
    assert_eq!((note.id.as_str(), note.path.as_str()), ("a/b.md", "a/b.md"));
    assert_eq!((note.name.as_str(), note.title.as_str()), ("b", "T"));
    assert_eq!((note.mtime_ms, note.size_bytes), (1, 2));
}

#[test]
fn notes_are_files_with_the_right_extension() {
    assert!(is_note_file(true, b"a.md"));
    assert!(!is_note_file(false, b"a.md"));
    assert!(!is_note_file(true, b"a.MD"));
    assert!(!is_note_file(true, b".md"));
    assert!(!is_note_file(true, b"md"));
    assert!(!is_note_file(true, b"a.mdx"));
}

#[test]
fn notes_are_listed_by_path() {
    let listed = list_notes(vec![meta("b.md", "1"), meta("a/z.md", "2"), meta("B.md", "3"), meta("b.md", "4")]);
    let shown: Vec<(String, String)> =
        listed.into_iter().map(|n| (n.path, n.title)).collect();
    assert_eq!(
        shown,
        vec![
            ("B.md".to_string(), "3".to_string()),
            ("a/z.md".to_string(), "2".to_string()),
            ("b.md".to_string(), "1".to_string()),
            ("b.md".to_string(), "4".to_string()),
        ]
    );
}

fn image(custom: Option<&str>, folder: Option<&str>, file: Option<&str>) -> WriteImageAssetArgs {
    WriteImageAssetArgs {
        vault_id: "v".to_string(),
        note_path: "docs/My Note.md".to_string(),
        mime_type: "image/JPEG".to_string(),
        file_name: file.map(|f| f.to_string()),
        bytes: Vec::new(),
        custom_filename: custom.map(|c| c.to_string()),
        attachment_folder: folder.map(|f| f.to_string()),
    }
}

#[test]
fn image_extensions_come_from_name_or_type() {
    let none = None;
    assert_eq!(image_extension("image/jpeg", &none), "jpg");
    assert_eq!(image_extension("image/png", &none), "png");
    assert_eq!(image_extension("IMAGE/GIF", &none), "gif");
    assert_eq!(image_extension("image/webp", &none), "webp");
    assert_eq!(image_extension("image/bmp", &none), "bmp");
    assert_eq!(image_extension("image/svg+xml", &none), "svg");
    assert_eq!(image_extension("text/plain", &none), "png");
    assert_eq!(image_extension("image/png", &Some("a/Photo.JPeG".to_string())), "jpeg");
    assert_eq!(image_extension("image/gif", &Some("photo.".to_string())), "gif");
}

#[test]
fn stems_are_made_clean() {
    assert_eq!(sanitize_stem("My Photo (1)"), "my-photo-1");
    assert_eq!(sanitize_stem("--a__B--"), "a__b");
    assert_eq!(sanitize_stem("\u{e4}\u{f6}"), "image");
    assert_eq!(sanitize_stem(""), "image");
}

#[test]
fn clean_stems_stay_as_they_are() {
    for value in ["My Photo (1)", "--a__B--", "", "a - b"] {
        let stem = sanitize_stem(value);
        assert_eq!(sanitize_stem(&stem), stem);
    }
}

fn place(folder: &str, file_name: &str) -> Result<AssetPlace, String> {
    Ok(AssetPlace { folder: folder.to_string(), file_name: file_name.to_string() })
}

fn leaves(image: Option<&str>, note: Option<&str>, custom: Option<&str>) -> AssetLeaves {
    let owned = |leaf: Option<&str>| leaf.map(|l| l.to_string());
    AssetLeaves { image: owned(image), note: owned(note), custom: owned(custom) }
}

#[test]
fn images_are_named_after_the_leaves_of_their_paths() {
    let source = image(None, None, Some("C:\\pics\\Shot.GIF"));
    assert_eq!(
        asset_place_for(&source, &leaves(Some("Shot.GIF"), Some("My Note.md"), None), 5),
        place(".assets", "shot-5.gif")
    );
    assert_eq!(
        asset_place_for(&source, &leaves(None, Some("My Note.md"), None), 5),
        place(".assets", "my-note-5.jpg")
    );
    assert_eq!(asset_place_for(&source, &leaves(None, None, None), 5), place(".assets", "image-5.jpg"));
    let custom = image(Some("c:x"), None, None);
    assert_eq!(
        asset_place_for(&custom, &leaves(None, None, Some("x")), 5),
        place(".assets", "c:x.jpg")
    );
}

#[test]
fn leaves_of_the_paths_of_an_image_are_read() {
    let read = asset_leaves(&image(Some("./a/b.png"), None, Some("x/Shot.PNG")));
    assert_eq!(read.image, Some("Shot.PNG".to_string()));
    assert_eq!(read.note, Some("My Note.md".to_string()));
    assert_eq!(read.custom, Some("ab.png".to_string()));
}

#[test]
fn extensions_come_from_the_leaf_of_a_path() {
    assert_eq!(extension_for_leaf("image/gif", &Some("a.WEBP".to_string())), "webp");
    assert_eq!(extension_for_leaf("image/gif", &Some(".webp".to_string())), "gif");
    assert_eq!(extension_for_leaf("image/gif", &None), "gif");
}

#[test]
fn images_are_named_after_their_source() {
    assert_eq!(
        asset_place(&image(None, None, Some("Shot 1.PNG")), 42),
        place(".assets", "shot-1-42.png")
    );
    assert_eq!(asset_place(&image(None, None, None), 42), place(".assets", "my-note-42.jpg"));
    assert_eq!(asset_place(&image(None, Some(""), None), 7), place("", "my-note-7.jpg"));
}

#[test]
fn images_can_be_given_a_name() {
    assert_eq!(
        asset_place(&image(Some("..//a\\b"), Some("img"), None), 1),
        place("img", "ab.jpg")
    );
    assert_eq!(
        asset_place(&image(Some("a.gif"), Some("img"), None), 1),
        place("img", "a.gif")
    );
    assert_eq!(
        asset_place(&image(Some("./."), Some("img"), None), 1),
        Err("invalid custom filename".to_string())
    );
}

#[test]
fn attachment_folders_are_single_names() {
    for folder in ["a/b", "a\\b", "..", "..a"] {
        assert_eq!(
            asset_place(&image(None, Some(folder), None), 1),
            Err("invalid attachment folder name".to_string())
        );
    }
}

fn scanned(name: &str, is_dir: bool) -> Result<ScannedEntry, String> {
    Ok(ScannedEntry { name: name.to_string(), excluded: false, is_dir: Ok(is_dir) })
}

#[test]
fn folders_are_listed_before_notes() {
    let found = vec![
        scanned("b.md", false),
        scanned("B.md", false),
        scanned("a.txt", false),
        scanned("Zoo", true),
        scanned("apes", true),
        scanned("A.md", false),
    ];
    let names: Vec<String> =
        scan_folder_entries(found).unwrap().into_iter().map(|e| e.name).collect();
    assert_eq!(names, vec!["apes", "Zoo", "A.md", "B.md", "b.md"]);
}

#[test]
fn excluded_entries_are_left_out() {
    let found = vec![
        Ok(ScannedEntry { name: ".git".to_string(), excluded: true, is_dir: Err("x".to_string()) }),
        scanned("a.md", false),
    ];
    assert_eq!(scan_folder_entries(found), Ok(vec![entry("a.md", false)]));
}

#[test]
fn first_error_ends_a_scan() {
    let broken = ScannedEntry {
        name: "a".to_string(),
        excluded: false,
        is_dir: Err("kind".to_string()),
    };
    assert_eq!(
        scan_folder_entries(vec![scanned("b.md", false), Ok(broken), Err("late".to_string())]),
        Err("kind".to_string())
    );
    assert_eq!(
        scan_folder_entries(vec![Err("early".to_string())]),
        Err("early".to_string())
    );
}

#[test]
fn pages_of_a_folder_follow_each_other() {
    let items = vec![entry("s", true), entry("a.md", false), entry("b.md", false)];
    let page = list_folder_contents(&items, "docs", 0, 2);
    assert_eq!(page.subfolders, vec!["docs/s".to_string()]);
    assert_eq!(page.note_paths, vec!["docs/a.md".to_string()]);
    assert_eq!((page.total_count, page.has_more), (3, true));
    let rest = list_folder_contents(&items, "", 2, usize::MAX);
    assert_eq!(rest.note_paths, vec!["b.md".to_string()]);
    assert!(!rest.has_more);
    let none = list_folder_contents(&items, "", 9, 9);
    assert!(none.note_paths.is_empty() && none.subfolders.is_empty() && !none.has_more);
    let contents = page_contents(page, vec![meta("docs/a.md", "A")]);
    assert_eq!(contents.notes.len(), 1);
    assert_eq!(contents.total_count, 3);
    assert!(contents.has_more);
}

#[test]
fn stats_count_notes_and_folders() {
    let walked = |name: &str, at_root: bool, is_dir: bool| WalkedEntry {
        at_root,
        is_file: !is_dir,
        is_dir,
        name: name.as_bytes().to_vec(),
    };
    let entries = vec![
        walked("vault", true, true),
        walked("a", false, true),
        walked("a.md", false, false),
        walked("a.png", false, false),
        walked("b.md", false, true),
    ];
    assert_eq!(get_folder_stats(&entries), FolderStats { note_count: 1, folder_count: 2 });
}

#[test]
fn folders_of_the_vault_are_listed() {
    assert!(is_listed_folder(false, true));
    assert!(!is_listed_folder(true, true));
    assert!(!is_listed_folder(false, false));
    assert_eq!(
        list_folders(vec!["b".to_string(), "a/c".to_string(), "a".to_string()]),
        vec!["a".to_string(), "a/c".to_string(), "b".to_string()]
    );
}

#[test]
fn vault_root_needs_no_search() {
    assert!(resolve_folder_abs("").is_none());
    assert!(matches!(resolve_folder_abs("a"), Some(VaultLookup::Root { .. })));
    assert!(matches!(resolve_folder_abs(".."), Some(VaultLookup::Done(Err(_)))));
}

#[test]
fn folder_commands_check_their_input() {
    assert_eq!(ensure_directory(true, "no"), Ok(()));
    assert_eq!(ensure_directory(false, "no"), Err("no".to_string()));
    for name in ["a/b", "a\\b", ".a"] {
        assert_eq!(check_folder_name(name), Err("invalid folder name".to_string()));
    }
    assert_eq!(check_folder_name("a.b"), Ok(()));
    assert_eq!(check_folder_rename("a", "b"), Ok(()));
    assert_eq!(check_folder_rename("", "b"), Err("cannot rename vault root".to_string()));
    assert_eq!(check_folder_rename("a", ""), Err("cannot rename vault root".to_string()));
    assert_eq!(check_folder_delete("a"), Ok(()));
    assert_eq!(check_folder_delete(""), Err("cannot delete vault root".to_string()));
}

#[test]
fn cache_finds_what_was_kept_for_thirty_seconds() {
    let mut cache = folder_cache();
    let key = folder_cache_key("v", "docs");
    assert_eq!(key, "v:docs");
    assert_eq!(get_or_scan_folder_entries(&mut cache, &key, 5), None);
    keep_scanned_entries(&mut cache, &key, &vec![entry("a.md", false)], 5);
    let last = 5 + FOLDER_CACHE_TTL_NANOS - 1;
    assert_eq!(
        get_or_scan_folder_entries(&mut cache, &key, last),
        Some(vec![entry("a.md", false)])
    );
    assert_eq!(cache.get(&key).unwrap().last_accessed, last);
    assert_eq!(get_or_scan_folder_entries(&mut cache, &key, last + 1), None);
    assert_eq!(cache.len(), 0);
}

#[test]
fn cache_forgets_what_was_asked_for_longest_ago() {
    let mut cache = folder_cache();
    for i in 0..FOLDER_CACHE_MAX_ENTRIES as u64 {
        keep_scanned_entries(&mut cache, &format!("v:{}", i), &Vec::new(), i);
    }
    assert!(get_or_scan_folder_entries(&mut cache, "v:0", 100).is_some());
    keep_scanned_entries(&mut cache, "v:new", &Vec::new(), 101);
    assert_eq!(cache.len(), FOLDER_CACHE_MAX_ENTRIES);
    assert!(cache.contains_key("v:0"));
    assert!(!cache.contains_key("v:1"));
    assert!(cache.contains_key("v:new"));
}

#[test]
fn cache_can_be_purged_and_bounded() {
    let mut cache = folder_cache();
    for i in 0..70u64 {
        cache.insert(
            format!("k{:02}", i),
            FolderCacheEntry { items: Vec::new(), cached_at: i, last_accessed: 1000 - i },
        );
    }
    evict_folder_cache_if_needed(&mut cache);
    assert_eq!(cache.len(), FOLDER_CACHE_MAX_ENTRIES);
    assert!(cache.contains_key("k00"));
    assert!(!cache.contains_key("k69"));
    purge_expired_folder_cache(&mut cache, 10 + FOLDER_CACHE_TTL_NANOS);
    assert!(!cache.contains_key("k10"));
    assert!(cache.contains_key("k11"));
}

#[test]
fn cache_entries_can_be_taken_out() {
    let mut cache = folder_cache();
    for key in ["v:", "v:a", "v:a/b"] {
        keep_scanned_entries(&mut cache, key, &Vec::new(), 1);
    }
    invalidate_note_parent_folder_cache(&mut cache, "v", "note.md");
    assert!(!cache.contains_key("v:"));
    invalidate_folder_parent_cache(&mut cache, "v", "a/b");
    assert!(!cache.contains_key("v:a"));
    invalidate_folder_cache(&mut cache, "v", "a/b");
    assert_eq!(cache.len(), 0);
}
