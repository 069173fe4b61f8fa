use crate::byte_offset;
use crate::text;
use crate::vault_path;
use vstd::prelude::*;
use vstd::utf8::*;

verus! {

/// A changed file and how it was changed.
#[derive(Debug)]
pub struct GitFileStatus {
    pub path: String,
    pub status: String,
}

/// The state of a repository: its branch, its changed files, and how far it is ahead of and behind
/// the branch that it follows.
#[derive(Debug)]
pub struct GitStatus {
    pub branch: String,
    pub is_dirty: bool,
    pub ahead: usize,
    pub behind: usize,
    pub files: Vec<GitFileStatus>,
}

/// A commit.
#[derive(Debug)]
pub struct GitCommit {
    pub hash: String,
    pub short_hash: String,
    pub author: String,
    pub timestamp_ms: i64,
    pub message: String,
}

/// One line of a difference.
#[derive(Debug)]
pub struct GitDiffLine {
    pub line_type: String,
    pub content: String,
    pub old_line: Option<u32>,
    pub new_line: Option<u32>,
}

/// Lines of a difference that belong together.
#[derive(Debug)]
pub struct GitDiffHunk {
    pub header: String,
    pub lines: Vec<GitDiffLine>,
}

/// A difference between two commits.
#[derive(Debug)]
pub struct GitDiff {
    pub additions: usize,
    pub deletions: usize,
    pub hunks: Vec<GitDiffHunk>,
}

/// What is known of a file in a repository.
#[derive(Debug, Clone, Copy, PartialEq, Eq, Structural)]
pub struct StatusFlags {
    pub index_new: bool,
    pub index_modified: bool,
    pub index_deleted: bool,
    pub index_renamed: bool,
    pub wt_new: bool,
    pub wt_modified: bool,
    pub wt_deleted: bool,
    pub wt_renamed: bool,
    pub ignored: bool,
    pub conflicted: bool,
}

/// What the bits of a status say of a file.
pub open spec fn flags_of(bits: u32) -> StatusFlags {
    StatusFlags {
        index_new: bits & 0x1 != 0,
        index_modified: bits & 0x2 != 0,
        index_deleted: bits & 0x4 != 0,
        index_renamed: bits & 0x8 != 0,
        wt_new: bits & 0x80 != 0,
        wt_modified: bits & 0x100 != 0,
        wt_deleted: bits & 0x200 != 0,
        wt_renamed: bits & 0x800 != 0,
        ignored: bits & 0x4000 != 0,
        conflicted: bits & 0x8000 != 0,
    }
}

/// Asks `git2::Status` of the bits of a status what they say of a file: each of its methods
/// `is_index_new` to `is_conflicted` says whether one bit is set, and the contract says which.
#[verifier::external_body]
pub(crate) fn status_flags(bits: u32) -> (r: StatusFlags)
    ensures
        r == flags_of(bits),
{
    let s = git2::Status::from_bits_retain(bits);
    StatusFlags {
        index_new: s.is_index_new(),
        index_modified: s.is_index_modified(),
        index_deleted: s.is_index_deleted(),
        index_renamed: s.is_index_renamed(),
        wt_new: s.is_wt_new(),
        wt_modified: s.is_wt_modified(),
        wt_deleted: s.is_wt_deleted(),
        wt_renamed: s.is_wt_renamed(),
        ignored: s.is_ignored(),
        conflicted: s.is_conflicted(),
    }
}

/// How a file was changed, in one word.
pub open spec fn status_word(flags: StatusFlags) -> Seq<char> {
    if flags.conflicted {
        "conflicted"@
    } else if flags.index_new {
        "added"@
    } else if flags.wt_new {
        "untracked"@
    } else if flags.wt_deleted || flags.index_deleted {
        "deleted"@
    } else if flags.wt_modified || flags.index_modified || flags.wt_renamed || flags.index_renamed {
        "modified"@
    } else {
        "untracked"@
    }
}

/// How a file whose status has these bits was changed, in one word.
pub fn status_string(bits: u32) -> (r: &'static str)
    ensures
        r@ == status_word(flags_of(bits)),
{
    let s = status_flags(bits);
    if s.conflicted {
        "conflicted"
    } else if s.index_new {
        "added"
    } else if s.wt_new {
        "untracked"
    } else if s.wt_deleted || s.index_deleted {
        "deleted"
    } else if s.wt_modified || s.index_modified || s.wt_renamed || s.index_renamed {
        "modified"
    } else {
        "untracked"
    }
}

/// A file that the repository reports: its path, if that is text, and the bits of its status.
#[derive(Debug)]
pub struct StatusEntry {
    pub path: Option<String>,
    pub bits: u32,
}

/// A changed file and how it was changed, as texts.
pub struct FileStatusView {
    pub path: Seq<char>,
    pub status: Seq<char>,
}

impl View for GitFileStatus {
    type V = FileStatusView;

    open spec fn view(&self) -> FileStatusView {
        FileStatusView { path: self.path@, status: self.status@ }
    }
}

/// What the changed files of `v` hold.
pub open spec fn file_views(v: Seq<GitFileStatus>) -> Seq<FileStatusView> {
    Seq::new(v.len(), |i: int| v[i]@)
}

/// The changed files among `entries`: those whose path is text and that are not ignored.
pub open spec fn changed_files(entries: Seq<StatusEntry>) -> Seq<FileStatusView>
    decreases entries.len(),
{
    if entries.len() == 0 {
        Seq::empty()
    } else {
        let before = changed_files(entries.drop_last());
        let flags = flags_of(entries.last().bits);
        match entries.last().path {
            Some(path) => if flags.ignored {
                before
            } else {
                before.push(FileStatusView { path: path@, status: status_word(flags) })
            },
            None => before,
        }
    }
}

/// The state of a repository that reports `entries`. Without a branch of a name it is shown at
/// `HEAD`; where it cannot be compared with the branch that it follows, it is shown as even.
pub fn git_status(
    branch: Option<String>,
    entries: &Vec<StatusEntry>,
    ahead_behind: Option<(usize, usize)>,
) -> (r: GitStatus)
    ensures
        r.branch@ == (match branch {
            Some(name) => name@,
            None => "HEAD"@,
        }),
        file_views(r.files@) == changed_files(entries@),
        r.is_dirty == (changed_files(entries@).len() > 0),
        (r.ahead, r.behind) == (match ahead_behind {
            Some(pair) => pair,
            None => (0usize, 0usize),
        }),
{
    let branch = match branch {
        Some(name) => name,
        None => "HEAD".to_owned(),
    };
    let mut files: Vec<GitFileStatus> = Vec::new();
    let mut i: usize = 0;
    proof {
        assert(entries@.take(0) =~= Seq::<StatusEntry>::empty());
        assert(file_views(files@) =~= Seq::<FileStatusView>::empty());
    }
    while i < entries.len()
        invariant
            i <= entries@.len(),
            file_views(files@) == changed_files(entries@.take(i as int)),
        decreases entries.len() - i,
    {
        let entry = &entries[i];
        let ghost before = files@;
        proof {
            let next = entries@.take(i + 1);
            assert(next.drop_last() =~= entries@.take(i as int));
            assert(next.last() == *entry);
        }
        if let Some(path) = &entry.path {
            if !status_flags(entry.bits).ignored {
                let file = GitFileStatus {
                    path: path.clone(),
                    status: status_string(entry.bits).to_owned(),
                };
                files.push(file);
                assert(file_views(files@) =~= file_views(before).push(file@));
            }
        }
        i += 1;
    }
    proof {
        assert(entries@.take(entries@.len() as int) =~= entries@);
        assert(files@.len() == file_views(files@).len());
    }
    let (ahead, behind) = match ahead_behind {
        Some(pair) => pair,
        None => (0, 0),
    };
    let is_dirty = files.len() > 0;
    GitStatus { branch, is_dirty, ahead, behind, files }
}

/// The reference of the remote branch that the branch `branch_name` follows.
pub fn upstream_ref(branch_name: &str) -> (r: String)
    ensures
        r@ == "refs/remotes/origin/"@ + branch_name@,
{
    let mut out = text::chars_of("refs/remotes/origin/");
    let name = text::chars_of(branch_name);
    text::append(&mut out, name.as_slice());
    text::string_of(out.as_slice())
}

/// What is done with a file that is to be part of a commit.
#[derive(Debug, Clone, Copy, PartialEq, Eq, Structural)]
pub enum StageAction {
    /// Its content goes into the index.
    Add,
    /// It leaves the index.
    Remove,
}

/// What is done with a file that is to be part of a commit: one that is gone leaves the index.
pub fn stage_action(on_disk: bool) -> (r: StageAction)
    ensures
        r == (if on_disk {
            StageAction::Add
        } else {
            StageAction::Remove
        }),
{
    if on_disk {
        StageAction::Add
    } else {
        StageAction::Remove
    }
}

/// What is said when that fails, for the reason `error`.
pub fn stage_failure(action: StageAction, path: &str, error: &str) -> (r: String)
    ensures
        r@ == (match action {
            StageAction::Add => "failed to stage "@,
            StageAction::Remove => "failed to remove "@,
        }) + path@ + ": "@ + error@,
{
    let mut out = match action {
        StageAction::Add => text::chars_of("failed to stage "),
        StageAction::Remove => text::chars_of("failed to remove "),
    };
    let path = text::chars_of(path);
    let colon = text::chars_of(": ");
    let error = text::chars_of(error);
    text::append(&mut out, path.as_slice());
    text::append(&mut out, colon.as_slice());
    text::append(&mut out, error.as_slice());
    text::string_of(out.as_slice())
}

/// The paths of those of `entries` that were deleted.
pub open spec fn deleted_paths(entries: Seq<StatusEntry>) -> Seq<Seq<char>>
    decreases entries.len(),
{
    if entries.len() == 0 {
        Seq::empty()
    } else {
        let before = deleted_paths(entries.drop_last());
        let flags = flags_of(entries.last().bits);
        match entries.last().path {
            Some(path) => if flags.wt_deleted || flags.index_deleted {
                before.push(path@)
            } else {
                before
            },
            None => before,
        }
    }
}

/// The files that leave the index when all changes become part of a commit.
pub fn stage_all_files(entries: &Vec<StatusEntry>) -> (r: Vec<String>)
    ensures
        text::texts(r@) == deleted_paths(entries@),
{
    let mut out: Vec<String> = Vec::new();
    let mut i: usize = 0;
    proof {
        assert(entries@.take(0) =~= Seq::<StatusEntry>::empty());
        assert(text::texts(out@) =~= Seq::<Seq<char>>::empty());
    }
    while i < entries.len()
        invariant
            i <= entries@.len(),
            text::texts(out@) == deleted_paths(entries@.take(i as int)),
        decreases entries.len() - i,
    {
        let entry = &entries[i];
        let ghost before = out@;
        proof {
            let next = entries@.take(i + 1);
            assert(next.drop_last() =~= entries@.take(i as int));
            assert(next.last() == *entry);
        }
        let flags = status_flags(entry.bits);
        if flags.wt_deleted || flags.index_deleted {
            if let Some(path) = &entry.path {
                out.push(path.clone());
                assert(text::texts(out@) =~= text::texts(before).push(path@));
            }
        }
        i += 1;
    }
    proof {
        assert(entries@.take(entries@.len() as int) =~= entries@);
    }
    out
}

/// Fails if the tree of a new commit is that of the commit before it.
pub fn ensure_tree_has_changes(parent_tree: &Option<String>, tree: &str) -> (r: Result<(), String>)
    ensures
        match r {
            Ok(_) => match *parent_tree {
                Some(parent) => parent@ != tree@,
                None => true,
            },
            Err(e) => match *parent_tree {
                Some(parent) => parent@ == tree@ && e@ == "nothing to commit"@,
                None => false,
            },
        },
{
    if let Some(parent) = parent_tree {
        if text::same_text(parent.as_str(), tree) {
            return Err("nothing to commit".to_owned());
        }
    }
    Ok(())
}

/// What a repository says of a commit with regard to one file.
#[derive(Debug)]
pub enum CommitFacts {
    /// The tree of the commit cannot be read.
    NoTree,
    /// The commit has no parent; whether the file is in its tree.
    Root { present: bool },
    /// For each parent, up to the first that differs, how many files the difference to it, confined
    /// to that one, shows, if it can be made.
    Parents(Vec<Option<usize>>),
}

/// Whether a count is known and more than none.
pub open spec fn shows_change(count: Option<usize>) -> bool {
    match count {
        Some(n) => n > 0,
        None => false,
    }
}

/// Whether a count is known and more than none.
pub fn count_shows_change(count: Option<usize>) -> (r: bool)
    ensures
        r == shows_change(count),
{
    match count {
        Some(n) => n > 0,
        None => false,
    }
}

/// Whether one of `counts` is more than none.
pub open spec fn some_change(counts: Seq<Option<usize>>) -> bool {
    exists|i: int| 0 <= i < counts.len() && shows_change(#[trigger] counts[i])
}

/// Whether one of `counts` is more than none.
fn has_change(counts: &Vec<Option<usize>>) -> (r: bool)
    ensures
        r == some_change(counts@),
{
    let mut i: usize = 0;
    while i < counts.len()
        invariant
            i <= counts@.len(),
            forall|k: int| 0 <= k < i ==> !shows_change(#[trigger] counts@[k]),
        decreases counts.len() - i,
    {
        if count_shows_change(counts[i]) {
            return true;
        }
        i += 1;
    }
    false
}

/// Whether a commit changed a file: the first commit if the file is in it, any other if it differs
/// from one of its parents in that file.
pub fn commit_touches_file(facts: &CommitFacts) -> (r: bool)
    ensures
        r == (match *facts {
            CommitFacts::NoTree => false,
            CommitFacts::Root { present } => present,
            CommitFacts::Parents(counts) => some_change(counts@),
        }),
{
    match facts {
        CommitFacts::NoTree => false,
        CommitFacts::Root { present } => *present,
        CommitFacts::Parents(counts) => has_change(counts),
    }
}

/// How many bytes of a hash are shown.
pub open spec fn shown_bytes(hash: Seq<char>) -> int {
    if byte_offset::byte_len(hash) >= 7 {
        7
    } else {
        byte_offset::byte_len(hash) as int
    }
}

/// The first seven bytes of a hash, or all of it if it is shorter.
pub open spec fn short_form(hash: Seq<char>) -> Seq<char> {
    byte_offset::byte_slice(hash, 0, shown_bytes(hash))
}

/// The first seven bytes of a hash, or all of it if it is shorter.
pub fn abbreviated_hash(hash: &str) -> (r: &str)
    requires
        byte_offset::on_boundary(hash@, shown_bytes(hash@)),
    ensures
        r@ == short_form(hash@),
{
    let chars = text::chars_of(hash);
    let total = hash.as_bytes().len();
    let end = if total >= 7 {
        7
    } else {
        total
    };
    proof {
        assert(hash@.take(0) =~= Seq::<char>::empty());
        byte_offset::lemma_char_index(hash@, 0, 0);
    }
    match byte_offset::find_char_index(chars.as_slice(), end) {
        Some(i) => hash.substring_char(0, i),
        None => hash,
    }
}

proof fn lemma_ascii_widths(s: Seq<char>, n: int)
    requires
        0 <= n <= s.len(),
        forall|i: int| 0 <= i < s.len() ==> (#[trigger] s[i]) as u32 <= 0x7f,
    ensures
        byte_offset::byte_len(s.take(n)) == n,
    decreases n,
{
    if n == 0 {
        assert(s.take(0) =~= Seq::<char>::empty());
    } else {
        lemma_ascii_widths(s, n - 1);
        byte_offset::lemma_byte_len_next(s, n - 1);
        char_is_scalar(s[n - 1]);
        assert(s[n - 1] as u32 <= 0x7f);
        assert(byte_offset::char_width(s[n - 1]) == 1);
    }
}

/// A hash of ASCII characters, as repositories give it, can always be cut short, and then shows
/// its first seven characters.
pub proof fn law_ascii_hash_can_be_cut(hash: Seq<char>)
    requires
        forall|i: int| 0 <= i < hash.len() ==> (#[trigger] hash[i]) as u32 <= 0x7f,
    ensures
        byte_offset::on_boundary(hash, shown_bytes(hash)),
        short_form(hash) == hash.take(
            if hash.len() >= 7 {
                7
            } else {
                hash.len() as int
            },
        ),
{
    let n = if hash.len() >= 7 {
        7
    } else {
        hash.len() as int
    };
    lemma_ascii_widths(hash, n);
    lemma_ascii_widths(hash, hash.len() as int);
    assert(hash.take(hash.len() as int) =~= hash);
    assert(hash.take(0) =~= Seq::<char>::empty());
    byte_offset::lemma_char_index(hash, n, n);
    byte_offset::lemma_char_index(hash, 0, 0);
    assert(hash.subrange(0, n) =~= hash.take(n));
}

/// A commit as the repository gives it; names and messages that are no text are missing.
#[derive(Debug)]
pub struct RawCommit {
    pub hash: String,
    pub author: Option<String>,
    pub seconds: i64,
    pub message: Option<String>,
}

/// A commit as it is shown.
pub fn to_git_commit(commit: RawCommit) -> (r: GitCommit)
    requires
        byte_offset::on_boundary(commit.hash@, shown_bytes(commit.hash@)),
        i64::MIN <= commit.seconds * 1000 <= i64::MAX,
    ensures
        r.hash@ == commit.hash@,
        r.short_hash@ == short_form(commit.hash@),
        r.author@ == (match commit.author {
            Some(name) => name@,
            None => "Unknown"@,
        }),
        r.timestamp_ms == commit.seconds * 1000,
        r.message@ == (match commit.message {
            Some(message) => message@,
            None => ""@,
        }),
{
    let short_hash = abbreviated_hash(commit.hash.as_str()).to_owned();
    let author = match commit.author {
        Some(name) => name,
        None => "Unknown".to_owned(),
    };
    let message = match commit.message {
        Some(message) => message,
        None => "".to_owned(),
    };
    GitCommit {
        hash: commit.hash,
        short_hash,
        author,
        timestamp_ms: commit.seconds * 1000,
        message,
    }
}

/// A walk through the history that gathers at most `limit` commits.
#[derive(Debug)]
pub struct LogWalk {
    pub limit: usize,
    pub commits: Vec<GitCommit>,
}

/// The first `limit` of the commits in `visits` that are wanted.
pub open spec fn wanted_commits(visits: Seq<(GitCommit, bool)>, limit: int) -> Seq<GitCommit>
    decreases visits.len(),
{
    if visits.len() == 0 {
        Seq::empty()
    } else {
        let before = wanted_commits(visits.drop_last(), limit);
        if before.len() < limit && visits.last().1 {
            before.push(visits.last().0)
        } else {
            before
        }
    }
}

impl LogWalk {
    /// A walk that has not begun.
    pub fn new(limit: usize) -> (r: LogWalk)
        ensures
            r.limit == limit,
            r.commits@ == wanted_commits(Seq::empty(), limit as int),
    {
        LogWalk { limit, commits: Vec::new() }
    }

    /// Whether the walk goes on: it has not gathered as many commits as it may.
    pub fn wants_more(&self) -> (r: bool)
        ensures
            r == (self.commits@.len() < self.limit),
    {
        self.commits.len() < self.limit
    }

    /// Takes the next commit of the history, if it is wanted and the walk goes on.
    pub fn visit(&mut self, commit: GitCommit, wanted: bool)
        ensures
            final(self).limit == old(self).limit,
            final(self).commits@ == (if old(self).commits@.len() < old(self).limit && wanted {
                old(self).commits@.push(commit)
            } else {
                old(self).commits@
            }),
            forall|visits: Seq<(GitCommit, bool)>|
                old(self).commits@ == wanted_commits(visits, old(self).limit as int)
                    ==> final(self).commits@ == #[trigger] wanted_commits(
                    visits.push((commit, wanted)),
                    old(self).limit as int,
                ),
    {
        proof {
            assert forall|visits: Seq<(GitCommit, bool)>|
                self.commits@ == wanted_commits(visits, self.limit as int) implies (
            if self.commits@.len() < self.limit && wanted {
                self.commits@.push(commit)
            } else {
                self.commits@
            }) == #[trigger] wanted_commits(visits.push((commit, wanted)), self.limit as int) by {
                assert(visits.push((commit, wanted)).drop_last() =~= visits);
            }
        }
        if self.commits.len() < self.limit && wanted {
            self.commits.push(commit);
        }
    }
}

/// A walk gathers the wanted commits in the order of the history, never more than it may, and once
/// it has as many, no later commit changes what it gathered.
pub proof fn law_log_is_bounded(visits: Seq<(GitCommit, bool)>, limit: int, next: (GitCommit, bool))
    requires
        0 <= limit,
    ensures
        wanted_commits(visits, limit).len() <= limit,
        wanted_commits(visits, limit).len() == limit ==> wanted_commits(visits.push(next), limit)
            == wanted_commits(visits, limit),
        wanted_commits(visits, limit).len() < limit && next.1 ==> wanted_commits(
            visits.push(next),
            limit,
        ) == wanted_commits(visits, limit).push(next.0),
    decreases visits.len(),
{
    assert(visits.push(next).drop_last() =~= visits);
    if visits.len() > 0 {
        law_log_is_bounded(visits.drop_last(), limit, visits.last());
        assert(visits.drop_last().push(visits.last()) =~= visits);
    }
}

/// What kind of line of a difference begins with the character `origin`.
pub open spec fn line_kind(origin: char) -> Seq<char> {
    if origin == '+' {
        "addition"@
    } else if origin == '-' {
        "deletion"@
    } else {
        "context"@
    }
}

/// What kind of line of a difference begins with the character `origin`.
pub fn line_type(origin: char) -> (r: &'static str)
    ensures
        r@ == line_kind(origin),
{
    if origin == '+' {
        "addition"
    } else if origin == '-' {
        "deletion"
    } else {
        "context"
    }
}

/// What a line of a difference holds.
pub struct LineView {
    pub line_type: Seq<char>,
    pub content: Seq<char>,
    pub old_line: Option<u32>,
    pub new_line: Option<u32>,
}

impl View for GitDiffLine {
    type V = LineView;

    open spec fn view(&self) -> LineView {
        LineView {
            line_type: self.line_type@,
            content: self.content@,
            old_line: self.old_line,
            new_line: self.new_line,
        }
    }
}

/// What a hunk of a difference holds.
#[verifier::ext_equal]
pub struct HunkView {
    pub header: Seq<char>,
    pub lines: Seq<LineView>,
}

/// What the lines of `v` hold.
pub open spec fn line_views(v: Seq<GitDiffLine>) -> Seq<LineView> {
    Seq::new(v.len(), |i: int| v[i]@)
}

impl View for GitDiffHunk {
    type V = HunkView;

    open spec fn view(&self) -> HunkView {
        HunkView { header: self.header@, lines: line_views(self.lines@) }
    }
}

/// What the hunks of `v` hold.
pub open spec fn hunk_views(v: Seq<GitDiffHunk>) -> Seq<HunkView> {
    Seq::new(v.len(), |i: int| v[i]@)
}

/// The hunks with one for `header` at their end: a new one unless the last has the same header.
pub open spec fn opened(hunks: Seq<HunkView>, header: Option<Seq<char>>) -> Seq<HunkView> {
    match header {
        Some(h) => if hunks.len() == 0 || hunks.last().header != h {
            hunks.push(HunkView { header: h, lines: Seq::empty() })
        } else {
            hunks
        },
        None => hunks,
    }
}

/// The hunks with a line added to the last of them, if there is one.
pub open spec fn extended(hunks: Seq<HunkView>, line: LineView) -> Seq<HunkView> {
    if hunks.len() == 0 {
        hunks
    } else {
        hunks.drop_last().push(
            HunkView { header: hunks.last().header, lines: hunks.last().lines.push(line) },
        )
    }
}

/// Adds a line, which stands under `header` if it stands in a hunk, to the hunks.
pub fn add_diff_line(hunks: &mut Vec<GitDiffHunk>, header: Option<String>, line: GitDiffLine)
    ensures
        hunk_views(final(hunks)@) == extended(
            opened(
                hunk_views(old(hunks)@),
                match header {
                    Some(h) => Some(h@),
                    None => None,
                },
            ),
            line@,
        ),
{
    let ghost start = hunk_views(hunks@);
    if let Some(header) = header {
        let n = hunks.len();
        let other = if n == 0 {
            true
        } else {
            assert(start.last() == hunks@[n - 1]@);
            !text::same_text(hunks[n - 1].header.as_str(), header.as_str())
        };
        if other {
            let ghost before = hunks@;
            let hunk = GitDiffHunk { header, lines: Vec::new() };
            proof {
                assert(hunk@ =~= HunkView { header: header@, lines: Seq::empty() });
            }
            hunks.push(hunk);
            proof {
                assert(hunk_views(hunks@) =~= hunk_views(before).push(hunk@));
            }
        }
    }
    let ghost open = hunk_views(hunks@);
    if let Some(last) = hunks.pop() {
        let mut last = last;
        proof {
            assert(open.drop_last() =~= hunk_views(hunks@));
            assert(open.last() == last@);
        }
        let ghost rest = hunks@;
        let ghost lines = last.lines@;
        last.lines.push(line);
        proof {
            assert(line_views(last.lines@) =~= line_views(lines).push(line@));
        }
        hunks.push(last);
        proof {
            assert(hunk_views(hunks@) =~= hunk_views(rest).push(last@));
        }
    }
}

/// A line of a difference as the repository gives it: the header of the hunk that it stands in, if
/// it stands in one, the character that it begins with, its content and its numbers.
#[derive(Debug)]
pub struct RawDiffLine {
    pub hunk_header: Option<Vec<u8>>,
    pub origin: char,
    pub content: Vec<u8>,
    pub old_line: Option<u32>,
    pub new_line: Option<u32>,
}

/// The hunks of the first `n` of `lines`. Bytes that are no UTF-8 are replaced.
pub open spec fn hunks_among(lines: Seq<RawDiffLine>, n: int) -> Seq<HunkView>
    decreases n,
{
    if n <= 0 {
        Seq::empty()
    } else {
        let raw = lines[n - 1];
        extended(
            opened(
                hunks_among(lines, n - 1),
                match raw.hunk_header {
                    Some(bytes) => Some(text::lossy_text(bytes@)),
                    None => None,
                },
            ),
            LineView {
                line_type: line_kind(raw.origin),
                content: text::lossy_text(raw.content@),
                old_line: raw.old_line,
                new_line: raw.new_line,
            },
        )
    }
}

/// The hunks that the lines of a difference make up.
pub fn collect_diff_hunks(lines: &Vec<RawDiffLine>) -> (r: Vec<GitDiffHunk>)
    ensures
        hunk_views(r@) == hunks_among(lines@, lines@.len() as int),
{
    let mut hunks: Vec<GitDiffHunk> = Vec::new();
    let mut i: usize = 0;
    proof {
        assert(hunk_views(hunks@) =~= Seq::<HunkView>::empty());
    }
    while i < lines.len()
        invariant
            i <= lines@.len(),
            hunk_views(hunks@) == hunks_among(lines@, i as int),
        decreases lines.len() - i,
    {
        let raw = &lines[i];
        let header = match &raw.hunk_header {
            Some(bytes) => Some(text::decode_lossy(bytes.as_slice())),
            None => None,
        };
        let line = GitDiffLine {
            line_type: line_type(raw.origin).to_owned(),
            content: text::decode_lossy(raw.content.as_slice()),
            old_line: raw.old_line,
            new_line: raw.new_line,
        };
        add_diff_line(&mut hunks, header, line);
        i += 1;
    }
    hunks
}

/// The lines of the hunks, one after the other.
pub open spec fn flat(hunks: Seq<HunkView>) -> Seq<LineView>
    decreases hunks.len(),
{
    if hunks.len() == 0 {
        Seq::empty()
    } else {
        flat(hunks.drop_last()) + hunks.last().lines
    }
}

/// No line is lost or moved once a hunk has begun: each comes behind those before it.
pub proof fn law_diff_lines_stay_in_order(
    hunks: Seq<HunkView>,
    header: Option<Seq<char>>,
    line: LineView,
)
    ensures
        hunks.len() > 0 || header is Some ==> flat(extended(opened(hunks, header), line)) == flat(
            hunks,
        ).push(line),
        hunks.len() == 0 && header is None ==> extended(opened(hunks, header), line) == hunks,
{
    let open = opened(hunks, header);
    if open.len() > hunks.len() {
        assert(open.drop_last() =~= hunks);
        assert(flat(open) =~= flat(hunks));
    }
    if open.len() > 0 {
        let after = extended(open, line);
        assert(after.drop_last() =~= open.drop_last());
        assert(flat(after) =~= flat(open).push(line));
    }
}

/// The text of a file at a commit.
pub fn file_text(bytes: Vec<u8>) -> (r: Result<String, String>)
    ensures
        match r {
            Ok(s) => valid_utf8(bytes@) && s@ == decode_utf8(bytes@),
            Err(e) => !valid_utf8(bytes@) && e@ == "file is not valid utf-8: "@ + text::utf8_fault(
                bytes@,
            ),
        },
{
    match text::decode_strict(bytes) {
        Ok(s) => Ok(s),
        Err(e) => {
            let mut out = text::chars_of("file is not valid utf-8: ");
            let tail = text::chars_of(e.as_str());
            text::append(&mut out, tail.as_slice());
            Err(text::string_of(out.as_slice()))
        },
    }
}

/// The name under which a restored file at `file_path`, whose file name is `leaf`, is shown.
pub open spec fn shown_title(file_path: Seq<char>, leaf: Option<Seq<char>>) -> Seq<char> {
    match vault_path::leaf_stem(leaf) {
        Some(stem) => stem,
        None => file_path,
    }
}

/// What the commit says that restores a file to a commit.
pub open spec fn restore_text(
    file_path: Seq<char>,
    leaf: Option<Seq<char>>,
    commit_hash: Seq<char>,
) -> Seq<char> {
    "Restore: "@ + shown_title(file_path, leaf) + " to "@ + short_form(commit_hash)
}

/// The message of the commit that restores the file at `file_path`, whose file name is `leaf`, to a
/// commit.
pub fn restore_message_for(file_path: &str, leaf: &Option<String>, commit_hash: &str) -> (r: String)
    requires
        byte_offset::on_boundary(commit_hash@, shown_bytes(commit_hash@)),
    ensures
        r@ == restore_text(file_path@, vault_path::optional_text(*leaf), commit_hash@),
{
    let short = abbreviated_hash(commit_hash);
    let title = match vault_path::file_stem(leaf) {
        Some(stem) => stem,
        None => file_path.to_owned(),
    };
    let mut out = text::chars_of("Restore: ");
    let title = text::chars_of(title.as_str());
    let to = text::chars_of(" to ");
    let short = text::chars_of(short);
    text::append(&mut out, title.as_slice());
    text::append(&mut out, to.as_slice());
    text::append(&mut out, short.as_slice());
    text::string_of(out.as_slice())
}

/// The message of the commit that restores a file to a commit.
pub fn restore_message(file_path: &str, commit_hash: &str) -> (r: String)
    requires
        byte_offset::on_boundary(commit_hash@, shown_bytes(commit_hash@)),
    ensures
        exists|leaf: Option<Seq<char>>| #[trigger]
            vault_path::reads_leaf(file_path@, leaf) && r@ == restore_text(
                file_path@,
                leaf,
                commit_hash@,
            ),
{
    let leaf = vault_path::path_file_name(file_path);
    restore_message_for(file_path, &leaf, commit_hash)
}

/// What a new repository ignores.
pub fn default_gitignore() -> (r: &'static str)
    ensures
        r@ == "node_modules/\n.DS_Store\n*.tmp\n.env\nThumbs.db\n.otterly/\n"@,
{
    "node_modules/\n.DS_Store\n*.tmp\n.env\nThumbs.db\n.otterly/\n"
}

} // verus!
