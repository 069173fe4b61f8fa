use crate::byte_offset;
use crate::git;
use crate::git::{
    FileStatusView, GitCommit, GitDiffHunk, GitDiffLine, GitFileStatus, HunkView, LineView,
    RawDiffLine, StatusEntry,
};
use crate::text;
use crate::text_laws::{ascending, lemma_ascending_push};
use crate::vault_path;
use vstd::prelude::*;
use vstd::utf8::*;

verus! {

/// How a file is shown goes by the bits of its status: a conflict before everything, then a file
/// new to the index, then one that is not tracked, then one that was deleted, then one that was
/// changed or renamed. A file with none of these is shown as not tracked.
pub proof fn law_status_word(bits: u32)
    ensures
        ({
            let word = git::status_word(git::flags_of(bits));
            let conflict = bits & 0x8000 != 0;
            let added = bits & 0x1 != 0;
            let untracked = bits & 0x80 != 0;
            let deleted = bits & 0x200 != 0 || bits & 0x4 != 0;
            let changed = bits & 0x100 != 0 || bits & 0x2 != 0 || bits & 0x800 != 0 || bits & 0x8
                != 0;
            &&& conflict ==> word == "conflicted"@
            &&& !conflict && added ==> word == "added"@
            &&& !conflict && !added && untracked ==> word == "untracked"@
            &&& !conflict && !added && !untracked && deleted ==> word == "deleted"@
            &&& !conflict && !added && !untracked && !deleted && changed ==> word == "modified"@
            &&& !conflict && !added && !untracked && !deleted && !changed ==> word == "untracked"@
        }),
{
}

/// Whether a file that the repository reports is shown: its path is text, and its bits do not say
/// that it is ignored.
pub open spec fn shown(entry: StatusEntry) -> bool {
    entry.path is Some && entry.bits & 0x4000 == 0
}

/// Each file that the repository reports is in the status with its path, whatever its bits are,
/// unless its path is no text or it is ignored; nothing else is, and the files stay in order.
pub proof fn law_status_lists_each_file(entries: Seq<StatusEntry>) -> (places: Seq<int>)
    ensures
        ascending(places, entries.len() as int),
        forall|i: int|
            0 <= i < entries.len() ==> (shown(#[trigger] entries[i]) <==> places.contains(i)),
        git::changed_files(entries).len() == places.len(),
        forall|k: int|
            0 <= k < places.len() ==> (#[trigger] git::changed_files(entries)[k]).path
                == entries[places[k]].path->0@,
        forall|k: int|
            0 <= k < places.len() ==> (#[trigger] git::changed_files(entries)[k]).status
                == git::status_word(git::flags_of(entries[places[k]].bits)),
    decreases entries.len(),
{
    if entries.len() == 0 {
        Seq::empty()
    } else {
        let front = entries.drop_last();
        let n = front.len() as int;
        let before = law_status_lists_each_file(front);
        lemma_ascending_push(before, n);
        let places = if shown(entries.last()) {
            before.push(n)
        } else {
            before
        };
        assert forall|i: int| 0 <= i < entries.len() implies (shown(#[trigger] entries[i])
            <==> places.contains(i)) by {
            text::lemma_push_contains(before, n, i);
            if i < n {
                assert(front[i] == entries[i]);
            } else if before.contains(n) {
                let a = choose|a: int| 0 <= a < before.len() && before[a] == n;
                assert(before[a] < n);
            }
        }
        assert forall|k: int| 0 <= k < places.len() implies (#[trigger] git::changed_files(
            entries,
        )[k]).path == entries[places[k]].path->0@ && git::changed_files(entries)[k].status
            == git::status_word(git::flags_of(entries[places[k]].bits)) by {
            if k < before.len() {
                assert(git::changed_files(front)[k].path == front[before[k]].path->0@);
                assert(front[before[k]] == entries[places[k]]);
            }
        }
        places
    }
}

/// The vault is shown as changed just if there is a file to show.
pub proof fn law_status_is_dirty(entries: Seq<StatusEntry>)
    ensures
        git::changed_files(entries).len() > 0 <==> exists|i: int|
            0 <= i < entries.len() && shown(#[trigger] entries[i]),
{
    let places = law_status_lists_each_file(entries);
    if places.len() > 0 {
        assert(places.contains(places[0]));
        assert(shown(entries[places[0]]));
    }
}

/// Whether a file that the repository reports was deleted: in the directory or in the index.
pub open spec fn gone(entry: StatusEntry) -> bool {
    entry.path is Some && (entry.bits & 0x200 != 0 || entry.bits & 0x4 != 0)
}

/// When all changes become part of a commit, just the files leave the index that were deleted.
pub proof fn law_deleted_files_leave_the_index(entries: Seq<StatusEntry>) -> (places: Seq<int>)
    ensures
        ascending(places, entries.len() as int),
        forall|i: int|
            0 <= i < entries.len() ==> (gone(#[trigger] entries[i]) <==> places.contains(i)),
        git::deleted_paths(entries).len() == places.len(),
        forall|k: int|
            0 <= k < places.len() ==> #[trigger] git::deleted_paths(entries)[k]
                == entries[places[k]].path->0@,
    decreases entries.len(),
{
    if entries.len() == 0 {
        Seq::empty()
    } else {
        let front = entries.drop_last();
        let n = front.len() as int;
        let before = law_deleted_files_leave_the_index(front);
        lemma_ascending_push(before, n);
        let places = if gone(entries.last()) {
            before.push(n)
        } else {
            before
        };
        assert forall|i: int| 0 <= i < entries.len() implies (gone(#[trigger] entries[i])
            <==> places.contains(i)) by {
            text::lemma_push_contains(before, n, i);
            if i < n {
                assert(front[i] == entries[i]);
            } else if before.contains(n) {
                let a = choose|a: int| 0 <= a < before.len() && before[a] == n;
                assert(before[a] < n);
            }
        }
        assert forall|k: int| 0 <= k < places.len() implies #[trigger] git::deleted_paths(
            entries,
        )[k] == entries[places[k]].path->0@ by {
            if k < before.len() {
                assert(git::deleted_paths(front)[k] == front[before[k]].path->0@);
                assert(front[before[k]] == entries[places[k]]);
            }
        }
        places
    }
}

/// A commit with parents changed a file just if one of the differences that could be made shows a
/// file.
pub proof fn law_change_shows_in_one_difference(counts: Seq<Option<usize>>)
    ensures
        git::some_change(counts) <==> exists|i: int|
            0 <= i < counts.len() && (#[trigger] counts[i]) is Some && counts[i]->0 != 0,
{
    if git::some_change(counts) {
        let i = choose|i: int| 0 <= i < counts.len() && git::shows_change(#[trigger] counts[i]);
        assert(counts[i] is Some);
    }
    if exists|i: int| 0 <= i < counts.len() && (#[trigger] counts[i]) is Some && counts[i]->0 != 0 {
        let i = choose|i: int|
            0 <= i < counts.len() && (#[trigger] counts[i]) is Some && counts[i]->0 != 0;
        assert(git::shows_change(counts[i]));
    }
}

/// A hash is shown by its first seven bytes, or by all of them if it has fewer.
pub proof fn law_short_hash(hash: Seq<char>)
    requires
        byte_offset::on_boundary(
            hash,
            if encode_utf8(hash).len() < 7 {
                encode_utf8(hash).len() as int
            } else {
                7
            },
        ),
    ensures
        encode_utf8(git::short_form(hash)) == encode_utf8(hash).take(
            if encode_utf8(hash).len() < 7 {
                encode_utf8(hash).len() as int
            } else {
                7
            },
        ),
{
    let n = if encode_utf8(hash).len() < 7 {
        encode_utf8(hash).len() as int
    } else {
        7
    };
    assert(hash.take(0) =~= Seq::<char>::empty());
    byte_offset::lemma_char_index(hash, 0, 0);
    byte_offset::law_slice_bytes(hash, 0, n);
    assert(encode_utf8(hash).subrange(0, n) =~= encode_utf8(hash).take(n));
}

/// A walk gathers wanted commits in the order of the history, and passes one over only once it has
/// as many as it may.
pub proof fn law_log_gathers_the_first_wanted(visits: Seq<(GitCommit, bool)>, limit: int) -> (places:
    Seq<int>)
    requires
        0 <= limit,
    ensures
        ascending(places, visits.len() as int),
        places.len() <= limit,
        git::wanted_commits(visits, limit).len() == places.len(),
        forall|k: int|
            0 <= k < places.len() ==> #[trigger] git::wanted_commits(visits, limit)[k]
                == visits[places[k]].0,
        forall|k: int| 0 <= k < places.len() ==> visits[#[trigger] places[k]].1,
        forall|i: int|
            0 <= i < visits.len() && (#[trigger] visits[i]).1 ==> places.contains(i) || (
            places.len() == limit && forall|k: int| 0 <= k < places.len() ==> places[k] < i),
    decreases visits.len(),
{
    if visits.len() == 0 {
        Seq::empty()
    } else {
        let front = visits.drop_last();
        let n = front.len() as int;
        let before = law_log_gathers_the_first_wanted(front, limit);
        lemma_ascending_push(before, n);
        let places = if before.len() < limit && visits.last().1 {
            before.push(n)
        } else {
            before
        };
        assert forall|k: int| 0 <= k < places.len() implies #[trigger] git::wanted_commits(
            visits,
            limit,
        )[k] == visits[places[k]].0 by {
            if k < before.len() {
                assert(git::wanted_commits(front, limit)[k] == front[before[k]].0);
            }
        }
        assert forall|k: int| 0 <= k < places.len() implies visits[#[trigger] places[k]].1 by {
            if k < before.len() {
                assert(front[before[k]].1);
            }
        }
        assert forall|i: int| 0 <= i < visits.len() && (#[trigger] visits[i]).1 implies (
        places.contains(i) || (places.len() == limit && forall|k: int|
            0 <= k < places.len() ==> places[k] < i)) by {
            text::lemma_push_contains(before, n, i);
            if i < n {
                assert(front[i].1);
            }
        }
        places
    }
}

/// Whether `line` is what is shown of `raw`: its kind goes by the character that it begins with,
/// its content is decoded, and its numbers are its own.
pub open spec fn shows(line: LineView, raw: RawDiffLine) -> bool {
    &&& raw.origin == '+' ==> line.line_type == "addition"@
    &&& raw.origin == '-' ==> line.line_type == "deletion"@
    &&& raw.origin != '+' && raw.origin != '-' ==> line.line_type == "context"@
    &&& valid_utf8(raw.content@) ==> line.content == decode_utf8(raw.content@)
    &&& !valid_utf8(raw.content@) ==> line.content == text::utf8_replaced(raw.content@)
    &&& line.old_line == raw.old_line
    &&& line.new_line == raw.new_line
}

/// Where the lines of a difference stand in its hunks: the first of them that stands in a hunk, and
/// for each from there on its hunk and its place there.
pub struct LinePlaces {
    pub first: int,
    pub hunk: Seq<int>,
    pub at: Seq<int>,
}

/// Whether the lines from the first with a header on stand in the hunks one after the other: one
/// without a header in the hunk of the line before it, one with the header of that hunk too, and
/// one with another header first in a new hunk of that header.
pub open spec fn lines_in_place(p: LinePlaces, lines: Seq<RawDiffLine>, n: int, hunks: Seq<HunkView>)
    -> bool {
    &&& 0 <= p.first <= n
    &&& p.hunk.len() == n - p.first
    &&& p.at.len() == n - p.first
    &&& forall|i: int| 0 <= i < p.first ==> (#[trigger] lines[i]).hunk_header is None
    &&& p.first < n ==> lines[p.first].hunk_header is Some && p.hunk[0] == 0 && p.at[0] == 0
    &&& p.first == n ==> hunks.len() == 0
    &&& p.first < n ==> hunks.len() == p.hunk.last() + 1
    &&& forall|k: int|
        0 <= k < p.hunk.len() ==> 0 <= #[trigger] p.hunk[k] < hunks.len() && 0 <= p.at[k]
            < hunks[p.hunk[k]].lines.len()
    &&& forall|k: int|
        0 <= k < p.hunk.len() ==> shows(
            hunks[#[trigger] p.hunk[k]].lines[p.at[k]],
            lines[p.first + k],
        )
    &&& forall|k: int|
        0 <= k < p.hunk.len() && lines[p.first + k].hunk_header is Some ==> hunks[
            #[trigger] p.hunk[k]
        ].header == text::lossy_text(lines[p.first + k].hunk_header->0@)
    &&& forall|j: int, k: int|
        #![trigger p.hunk[j], p.hunk[k]]
        0 <= j && k == j + 1 && k < p.hunk.len() ==> {
            let stays = lines[p.first + k].hunk_header is None || text::lossy_text(
                lines[p.first + k].hunk_header->0@,
            ) == hunks[p.hunk[j]].header;
            &&& stays ==> p.hunk[k] == p.hunk[j] && p.at[k] == p.at[j] + 1
            &&& !stays ==> p.hunk[k] == p.hunk[j] + 1 && p.at[k] == 0
            &&& !stays ==> hunks[p.hunk[j]].lines.len() == p.at[j] + 1
        }
    &&& p.first < n ==> hunks[p.hunk.last()].lines.len() == p.at.last() + 1
}

/// The hunks of a difference hold its lines from the first with a header on, each once, in order,
/// and as the repository gives it; a hunk ends where another header begins.
#[verifier::spinoff_prover]
pub proof fn law_hunks_hold_the_lines(lines: Seq<RawDiffLine>, n: int) -> (p: LinePlaces)
    requires
        0 <= n <= lines.len(),
    ensures
        lines_in_place(p, lines, n, git::hunks_among(lines, n)),
    decreases n,
{
    if n == 0 {
        LinePlaces { first: 0, hunk: Seq::empty(), at: Seq::empty() }
    } else {
        let q = law_hunks_hold_the_lines(lines, n - 1);
        let before = git::hunks_among(lines, n - 1);
        let hunks = git::hunks_among(lines, n);
        let raw = lines[n - 1];
        let m = q.hunk.len() as int;
        if before.len() == 0 && raw.hunk_header is None {
            assert(q.first == n - 1);
            LinePlaces { first: n, hunk: q.hunk, at: q.at }
        } else if before.len() == 0 || (raw.hunk_header is Some && text::lossy_text(
            raw.hunk_header->0@,
        ) != before.last().header) {
            let p = LinePlaces {
                first: q.first,
                hunk: q.hunk.push(before.len() as int),
                at: q.at.push(0),
            };
            assert(hunks.len() == before.len() + 1);
            assert forall|k: int| 0 <= k < m implies #[trigger] p.hunk[k] == q.hunk[k] && p.at[k]
                == q.at[k] by {}
            assert(p.hunk[m] == p.hunk.last() && p.at[m] == p.at.last());
            assert(forall|h: int| 0 <= h < before.len() ==> #[trigger] hunks[h] == before[h]);
            assert(hunks.last().lines.len() == 1);
            assert forall|j: int, k: int|
                #![trigger p.hunk[j], p.hunk[k]]
                0 <= j && k == j + 1 && k < p.hunk.len() implies {
                let stays = lines[p.first + k].hunk_header is None || text::lossy_text(
                    lines[p.first + k].hunk_header->0@,
                ) == hunks[p.hunk[j]].header;
                &&& stays ==> p.hunk[k] == p.hunk[j] && p.at[k] == p.at[j] + 1
                &&& !stays ==> p.hunk[k] == p.hunk[j] + 1 && p.at[k] == 0
                &&& !stays ==> hunks[p.hunk[j]].lines.len() == p.at[j] + 1
            } by {
                assert(p.hunk[j] == q.hunk[j]);
                assert(p.at[j] == q.at[j]);
                if k < m {
                    assert(p.hunk[k] == q.hunk[k]);
                    assert(p.at[k] == q.at[k]);
                }
            }
            assert(lines_in_place(p, lines, n, hunks));
            p
        } else {
            let last = before.len() - 1;
            let p = LinePlaces {
                first: q.first,
                hunk: q.hunk.push(last as int),
                at: q.at.push(before[last as int].lines.len() as int),
            };
            assert(hunks.len() == before.len());
            assert forall|k: int| 0 <= k < m implies #[trigger] p.hunk[k] == q.hunk[k] && p.at[k]
                == q.at[k] by {}
            assert(p.hunk[m] == p.hunk.last() && p.at[m] == p.at.last());
            assert(forall|h: int| 0 <= h < last ==> #[trigger] hunks[h] == before[h]);
            assert(hunks[last as int].header == before[last as int].header);
            assert(hunks[last as int].lines.len() == before[last as int].lines.len() + 1);
            assert(forall|j: int|
                0 <= j < before[last as int].lines.len() ==> #[trigger] hunks[last as int].lines[j]
                    == before[last as int].lines[j]);
            assert(q.hunk[m - 1] == last);
            assert(before[q.hunk[m - 1]].lines.len() == q.at[m - 1] + 1);
            assert forall|j: int, k: int|
                #![trigger p.hunk[j], p.hunk[k]]
                0 <= j && k == j + 1 && k < p.hunk.len() implies {
                let stays = lines[p.first + k].hunk_header is None || text::lossy_text(
                    lines[p.first + k].hunk_header->0@,
                ) == hunks[p.hunk[j]].header;
                &&& stays ==> p.hunk[k] == p.hunk[j] && p.at[k] == p.at[j] + 1
                &&& !stays ==> p.hunk[k] == p.hunk[j] + 1 && p.at[k] == 0
                &&& !stays ==> hunks[p.hunk[j]].lines.len() == p.at[j] + 1
            } by {
                assert(p.hunk[j] == q.hunk[j]);
                assert(p.at[j] == q.at[j]);
                if k < m {
                    assert(p.hunk[k] == q.hunk[k]);
                    assert(p.at[k] == q.at[k]);
                }
            }
            assert(lines_in_place(p, lines, n, hunks));
            p
        }
    }
}

/// The lines of the hunks, one after the other, are the lines from the first with a header on, each
/// as the repository gives it.
pub proof fn law_diff_shows_each_line(lines: Seq<RawDiffLine>, n: int) -> (first: int)
    requires
        0 <= n <= lines.len(),
    ensures
        0 <= first <= n,
        forall|i: int| 0 <= i < first ==> (#[trigger] lines[i]).hunk_header is None,
        first < n ==> lines[first].hunk_header is Some,
        git::hunks_among(lines, n).len() > 0 <==> first < n,
        git::flat(git::hunks_among(lines, n)).len() == n - first,
        forall|k: int|
            0 <= k < n - first ==> shows(
                #[trigger] git::flat(git::hunks_among(lines, n))[k],
                lines[first + k],
            ),
    decreases n,
{
    if n == 0 {
        0
    } else {
        let first = law_diff_shows_each_line(lines, n - 1);
        let before = git::hunks_among(lines, n - 1);
        let raw = lines[n - 1];
        let header = match raw.hunk_header {
            Some(bytes) => Some(text::lossy_text(bytes@)),
            None => None,
        };
        let line = LineView {
            line_type: git::line_kind(raw.origin),
            content: text::lossy_text(raw.content@),
            old_line: raw.old_line,
            new_line: raw.new_line,
        };
        git::law_diff_lines_stay_in_order(before, header, line);
        if before.len() == 0 && raw.hunk_header is None {
            n
        } else {
            first
        }
    }
}

/// A commit that restores a file names it by its file name without the extension, or by its path if
/// it has no file name, and the commit by the start of its hash.
pub proof fn law_restore_message(path: Seq<char>, leaf: Option<Seq<char>>, hash: Seq<char>)
    ensures
        match leaf {
            Some(name) => git::restore_text(path, leaf, hash) == "Restore: "@ + vault_path::stem_of(
                name,
            ) + " to "@ + git::short_form(hash),
            None => git::restore_text(path, leaf, hash) == "Restore: "@ + path + " to "@
                + git::short_form(hash),
        },
{
}

/// What is held of the changed files, the lines and the hunks of a list is what each of them holds,
/// in order.
pub proof fn law_git_views(
    files: Seq<GitFileStatus>,
    lines: Seq<GitDiffLine>,
    hunks: Seq<GitDiffHunk>,
    i: int,
    j: int,
)
    ensures
        git::file_views(files).len() == files.len(),
        git::line_views(lines).len() == lines.len(),
        git::hunk_views(hunks).len() == hunks.len(),
        0 <= i < files.len() ==> git::file_views(files)[i].path == files[i].path@ && git::file_views(
            files,
        )[i].status == files[i].status@,
        0 <= i < lines.len() ==> {
            let view = git::line_views(lines)[i];
            &&& view.line_type == lines[i].line_type@
            &&& view.content == lines[i].content@
            &&& view.old_line == lines[i].old_line
            &&& view.new_line == lines[i].new_line
        },
        0 <= i < hunks.len() ==> {
            let view = git::hunk_views(hunks)[i];
            &&& view.header == hunks[i].header@
            &&& view.lines.len() == hunks[i].lines@.len()
            &&& 0 <= j < view.lines.len() ==> view.lines[j].line_type == hunks[i].lines@[j].line_type@
                && view.lines[j].content == hunks[i].lines@[j].content@ && view.lines[j].old_line
                == hunks[i].lines@[j].old_line && view.lines[j].new_line
                == hunks[i].lines@[j].new_line
        },
{
}

} // verus!
