use otterly::git::{
    abbreviated_hash, add_diff_line, collect_diff_hunks, commit_touches_file, count_shows_change,
    default_gitignore,
    ensure_tree_has_changes, file_text, git_status, line_type, restore_message,
    restore_message_for, stage_action,
    stage_all_files, stage_failure, status_string, to_git_commit, upstream_ref, CommitFacts,
    GitCommit, GitDiffHunk, GitDiffLine, LogWalk, RawCommit, RawDiffLine, StageAction, StatusEntry,
};

fn bits(status: git2::Status) -> u32 {
    status.bits()
}

#[test]
fn status_is_one_word() {
    assert_eq!(status_string(bits(git2::Status::CONFLICTED | git2::Status::INDEX_NEW)), "conflicted");
    assert_eq!(status_string(bits(git2::Status::INDEX_NEW | git2::Status::WT_MODIFIED)), "added");
    assert_eq!(status_string(bits(git2::Status::WT_NEW)), "untracked");
    assert_eq!(status_string(bits(git2::Status::WT_DELETED)), "deleted");
    assert_eq!(status_string(bits(git2::Status::INDEX_DELETED)), "deleted");
    assert_eq!(status_string(bits(git2::Status::WT_MODIFIED)), "modified");
    assert_eq!(status_string(bits(git2::Status::INDEX_MODIFIED)), "modified");
    assert_eq!(status_string(bits(git2::Status::WT_RENAMED)), "modified");
    assert_eq!(status_string(bits(git2::Status::INDEX_RENAMED)), "modified");
    assert_eq!(status_string(bits(git2::Status::WT_TYPECHANGE)), "untracked");
    assert_eq!(status_string(0), "untracked");
}

fn entry(path: Option<&str>, status: git2::Status) -> StatusEntry {
    StatusEntry { path: path.map(|p| p.to_string()), bits: status.bits() }
}

#[test]
fn status_lists_changed_files() {
    let entries = vec![
        entry(Some("a.md"), git2::Status::WT_MODIFIED),
        entry(None, git2::Status::WT_NEW),
        entry(Some("b.md"), git2::Status::IGNORED),
        entry(Some("c.md"), git2::Status::INDEX_DELETED),
    ];
    let status = git_status(Some("main".to_string()), &entries, Some((2, 1)));
    assert_eq!(status.branch, "main");
    assert!(status.is_dirty);
    assert_eq!((status.ahead, status.behind), (2, 1));
    let files: Vec<(String, String)> =
        status.files.into_iter().map(|f| (f.path, f.status)).collect();
    assert_eq!(
        files,
        vec![
            ("a.md".to_string(), "modified".to_string()),
            ("c.md".to_string(), "deleted".to_string())
        ]
    );
    let clean = git_status(None, &Vec::new(), None);
    assert_eq!(clean.branch, "HEAD");
    assert!(!clean.is_dirty);
    assert_eq!((clean.ahead, clean.behind), (0, 0));
}

#[test]
fn branches_follow_the_remote() {
    assert_eq!(upstream_ref("main"), "refs/remotes/origin/main");
}

#[test]
fn files_are_staged_or_removed() {
    assert_eq!(stage_action(true), StageAction::Add);
    assert_eq!(stage_action(false), StageAction::Remove);
    assert_eq!(stage_failure(StageAction::Add, "a.md", "no"), "failed to stage a.md: no");
    assert_eq!(stage_failure(StageAction::Remove, "a.md", "no"), "failed to remove a.md: no");
    let entries = vec![
        entry(Some("a.md"), git2::Status::WT_DELETED),
        entry(None, git2::Status::WT_DELETED),
        entry(Some("b.md"), git2::Status::WT_NEW),
        entry(Some("c.md"), git2::Status::INDEX_DELETED),
    ];
    assert_eq!(stage_all_files(&entries), vec!["a.md".to_string(), "c.md".to_string()]);
}

#[test]
fn commit_needs_changes() {
    assert_eq!(ensure_tree_has_changes(&None, "abc"), Ok(()));
    assert_eq!(ensure_tree_has_changes(&Some("abd".to_string()), "abc"), Ok(()));
    assert_eq!(
        ensure_tree_has_changes(&Some("abc".to_string()), "abc"),
        Err("nothing to commit".to_string())
    );
}

#[test]
fn commits_touch_files() {
    assert!(!commit_touches_file(&CommitFacts::NoTree));
    assert!(commit_touches_file(&CommitFacts::Root { present: true }));
    assert!(!commit_touches_file(&CommitFacts::Root { present: false }));
    assert!(commit_touches_file(&CommitFacts::Parents(vec![None, Some(0), Some(1)])));
    assert!(!commit_touches_file(&CommitFacts::Parents(vec![None, Some(0)])));
    assert!(!commit_touches_file(&CommitFacts::Parents(Vec::new())));
}

#[test]
fn hashes_are_cut_to_seven_bytes() {
    assert_eq!(abbreviated_hash("0123456789"), "0123456");
    assert_eq!(abbreviated_hash("0123"), "0123");
    assert_eq!(abbreviated_hash("01234\u{e4}6"), "01234\u{e4}");
}

fn raw(hash: &str) -> RawCommit {
    RawCommit {
        hash: hash.to_string(),
        author: Some("Ada".to_string()),
        seconds: 12,
        message: Some("text".to_string()),
    }
}

#[test]
fn commits_are_shown() {
    let commit = to_git_commit(raw("0123456789"));
    assert_eq!(commit.hash, "0123456789");
    assert_eq!(commit.short_hash, "0123456");
    assert_eq!(commit.author, "Ada");
    assert_eq!(commit.timestamp_ms, 12_000);
    assert_eq!(commit.message, "text");
    let bare = to_git_commit(RawCommit {
        hash: "ab".to_string(),
        author: None,
        seconds: -1,
        message: None,
    });
    assert_eq!(bare.author, "Unknown");
    assert_eq!(bare.timestamp_ms, -1000);
    assert_eq!(bare.message, "");
}

#[test]
fn log_stops_at_its_limit() {
    let commit = |hash: &str| -> GitCommit { to_git_commit(raw(hash)) };
    let mut walk = LogWalk::new(2);
    assert!(walk.wants_more());
    walk.visit(commit("a"), true);
    walk.visit(commit("b"), false);
    assert!(walk.wants_more());
    walk.visit(commit("c"), true);
    assert!(!walk.wants_more());
    walk.visit(commit("d"), true);
    let hashes: Vec<String> = walk.commits.into_iter().map(|c| c.hash).collect();
    assert_eq!(hashes, vec!["a".to_string(), "c".to_string()]);
    assert!(!LogWalk::new(0).wants_more());
}

#[test]
fn diff_lines_have_types() {
    assert_eq!(line_type('+'), "addition");
    assert_eq!(line_type('-'), "deletion");
    assert_eq!(line_type(' '), "context");
}

fn line(header: Option<&str>, origin: char, content: &[u8]) -> RawDiffLine {
    RawDiffLine {
        hunk_header: header.map(|h| h.as_bytes().to_vec()),
        origin,
        content: content.to_vec(),
        old_line: Some(1),
        new_line: None,
    }
}

#[test]
fn diff_lines_are_grouped_by_header() {
    let lines = vec![
        line(None, 'F', b"diff --git"),
        line(Some("@@ 1"), 'H', b"@@ 1"),
        line(Some("@@ 1"), '+', b"a\xff"),
        line(Some("@@ 2"), '-', b"b"),
        line(None, ' ', b"c"),
    ];
    let hunks = collect_diff_hunks(&lines);
    assert_eq!(hunks.len(), 2);
    assert_eq!(hunks[0].header, "@@ 1");
    assert_eq!(hunks[0].lines.len(), 2);
    assert_eq!(hunks[0].lines[1].content, "a\u{fffd}");
    assert_eq!(hunks[0].lines[1].line_type, "addition");
    assert_eq!(hunks[0].lines[1].old_line, Some(1));
    assert_eq!(hunks[0].lines[1].new_line, None);
    assert_eq!(hunks[1].lines.len(), 2);
    assert_eq!(hunks[1].lines[1].line_type, "context");
}

#[test]
fn diff_lines_can_be_added_one_by_one() {
    let plain = |content: &str| GitDiffLine {
        line_type: "context".to_string(),
        content: content.to_string(),
        old_line: None,
        new_line: None,
    };
    let mut hunks: Vec<GitDiffHunk> = Vec::new();
    add_diff_line(&mut hunks, None, plain("lost"));
    assert!(hunks.is_empty());
    add_diff_line(&mut hunks, Some("h".to_string()), plain("a"));
    add_diff_line(&mut hunks, Some("h".to_string()), plain("b"));
    assert_eq!(hunks.len(), 1);
    assert_eq!(hunks[0].lines.len(), 2);
}

#[test]
fn file_content_must_be_text() {
    assert_eq!(file_text("\u{e4}".as_bytes().to_vec()), Ok("\u{e4}".to_string()));
    let expected = format!(
        "file is not valid utf-8: {}",
        String::from_utf8(vec![b'a', 0xff]).unwrap_err()
    );
    assert_eq!(file_text(vec![b'a', 0xff]), Err(expected));
}

#[test]
fn restored_files_are_named_in_the_message() {
    assert_eq!(restore_message("docs/note.md", "0123456789"), "Restore: note to 0123456");
    assert_eq!(restore_message("..", "ab"), "Restore: .. to ab");
    assert_eq!(
        restore_message_for("x\\n.md", &Some("n.md".to_string()), "0123456789"),
        "Restore: n to 0123456"
    );
    assert_eq!(restore_message_for("c:", &None, "ab"), "Restore: c: to ab");
}

#[test]
fn counts_show_a_change() {
    assert!(count_shows_change(Some(1)));
    assert!(!count_shows_change(Some(0)));
    assert!(!count_shows_change(None));
}

#[test]
fn new_repositories_ignore_some_files() {
    assert_eq!(
        default_gitignore().lines().collect::<Vec<&str>>(),
        vec!["node_modules/", ".DS_Store", "*.tmp", ".env", "Thumbs.db", ".otterly/"]
    );
}
