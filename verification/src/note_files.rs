use crate::link_path;
use crate::note_moves;
use crate::text;
use vstd::prelude::*;
use vstd::utf8::*;

verus! {

/// Whether a note may be overwritten that is thought to have been changed last at `expected`, and
/// that was changed last at `on_disk`; `None` there stands for a file that is missing.
pub fn check_unchanged(expected: Option<i64>, on_disk: Option<i64>) -> (r: Result<(), String>)
    ensures
        match (expected, on_disk) {
            (None, _) => r is Ok,
            (Some(_), None) => r matches Err(e) && e@ == "conflict:file_missing"@,
            (Some(want), Some(have)) => if want == have {
                r is Ok
            } else {
                r matches Err(e) && e@ == "conflict:mtime_mismatch"@
            },
        },
{
    match (expected, on_disk) {
        (None, _) => Ok(()),
        (Some(_), None) => Err("conflict:file_missing".to_owned()),
        (Some(want), Some(have)) => if want == have {
            Ok(())
        } else {
            Err("conflict:mtime_mismatch".to_owned())
        },
    }
}

/// What is said when the file of a new note could not be made, for the reason `message`.
pub fn create_failure(already_exists: bool, message: String) -> (r: String)
    ensures
        r@ == (if already_exists {
            "note already exists"@
        } else {
            message@
        }),
{
    if already_exists {
        "note already exists".to_owned()
    } else {
        message
    }
}

/// Whether a note may be renamed to a path at which, if `occupied`, something is; `same_place`
/// says whether that is the note itself.
pub fn check_rename_target(occupied: bool, same_place: bool) -> (r: Result<(), String>)
    ensures
        if occupied && !same_place {
            r matches Err(e) && e@ == "note already exists"@
        } else {
            r is Ok
        },
{
    if occupied && !same_place {
        Err("note already exists".to_owned())
    } else {
        Ok(())
    }
}

/// The folders whose contents a rename changes: the one that `from` lies in and, if it is another,
/// the one that `to` lies in.
pub fn folders_changed(from: &str, to: &str) -> (r: Vec<String>)
    ensures
        text::texts(r@) == (if link_path::parent_of(from@) == link_path::parent_of(to@) {
            seq![link_path::parent_of(from@)]
        } else {
            seq![link_path::parent_of(from@), link_path::parent_of(to@)]
        }),
{
    let from_parent = note_moves::parent_folder_path(from);
    let to_parent = note_moves::parent_folder_path(to);
    let same = text::same_text(from_parent.as_str(), to_parent.as_str());
    let mut out: Vec<String> = Vec::new();
    out.push(from_parent);
    if !same {
        out.push(to_parent);
        assert(text::texts(out@) =~= seq![
            link_path::parent_of(from@),
            link_path::parent_of(to@),
        ]);
    } else {
        assert(text::texts(out@) =~= seq![link_path::parent_of(from@)]);
    }
    out
}

/// The way of a file to its new place by way of a temporary name: what has to be done next. The
/// temporary name lies in the directory of the old place.
#[derive(Debug)]
pub enum Rename {
    /// Find out whether there is something with the temporary name.
    Probe { from_name: String, temp_name: String, attempt: u64 },
    /// Give the file the temporary name.
    MoveAside { temp_name: String },
    /// Move the file from the temporary name to its new place.
    MoveIn { temp_name: String },
    /// Give the file its old name back: it could not be moved in, for the reason `error`.
    MoveBack { temp_name: String, error: String },
    /// Nothing more.
    Done(Result<(), String>),
}

/// What was found out or done on that way.
#[derive(Debug)]
pub enum RenameEvent {
    /// Whether there is something with the temporary name, and the time.
    Probed { taken: bool, now_ms: u64 },
    /// The file was moved, or could not be.
    Moved(Result<(), String>),
}

/// The temporary name of a file: the time, and from the second attempt on the number of attempts
/// before, make it differ from others.
pub open spec fn temp_name(from_name: Seq<char>, now_ms: u64, attempt: u64) -> Seq<char> {
    let start = "."@ + from_name + ".rename."@ + text::decimal(now_ms as nat);
    if attempt == 0 {
        start + ".tmp"@
    } else {
        start + "."@ + text::decimal(attempt as nat) + ".tmp"@
    }
}

/// The temporary name of a file.
fn make_temp_name(from_name: &str, now_ms: u64, attempt: u64) -> (r: String)
    ensures
        r@ == temp_name(from_name@, now_ms, attempt),
{
    let name = text::chars_of(from_name);
    let middle = text::chars_of(".rename.");
    let time = text::digits_of(now_ms);
    let end = text::chars_of(".tmp");
    let dot = text::chars_of(".");
    let mut out = text::chars_of(".");
    text::append(&mut out, name.as_slice());
    text::append(&mut out, middle.as_slice());
    text::append(&mut out, time.as_slice());
    if attempt > 0 {
        let count = text::digits_of(attempt);
        text::append(&mut out, dot.as_slice());
        text::append(&mut out, count.as_slice());
    }
    text::append(&mut out, end.as_slice());
    text::string_of(out.as_slice())
}

/// Whether a rename has ended with the message `error`.
pub open spec fn rename_fails(state: Rename, error: Seq<char>) -> bool {
    state matches Rename::Done(Err(e)) && e@ == error
}

/// Begins to move a file to a new place. `same_place` says whether that is its old place,
/// `has_parent` whether the old place lies in a directory, and `file_name` is its name there.
pub fn rename_with_temp_path(
    same_place: bool,
    has_parent: bool,
    file_name: Option<Vec<u8>>,
    now_ms: u64,
) -> (r: Rename)
    ensures
        if same_place {
            r matches Rename::Done(Ok(_))
        } else if !has_parent {
            rename_fails(r, "invalid source path"@)
        } else {
            match file_name {
                Some(bytes) if valid_utf8(bytes@) => r matches Rename::Probe {
                    from_name,
                    temp_name: temp,
                    attempt,
                } && from_name@ == decode_utf8(bytes@) && temp@ == temp_name(
                    from_name@,
                    now_ms,
                    0,
                ) && attempt == 0,
                _ => rename_fails(r, "invalid source filename"@),
            }
        },
{
    if same_place {
        return Rename::Done(Ok(()));
    }
    if !has_parent {
        return Rename::Done(Err("invalid source path".to_owned()));
    }
    let name = match file_name {
        Some(bytes) => text::decode_strict(bytes),
        None => {
            return Rename::Done(Err("invalid source filename".to_owned()));
        },
    };
    match name {
        Ok(from_name) => {
            let temp = make_temp_name(from_name.as_str(), now_ms, 0);
            Rename::Probe { from_name, temp_name: temp, attempt: 0 }
        },
        Err(_) => Rename::Done(Err("invalid source filename".to_owned())),
    }
}

/// What is said when a file could neither be moved to its new place nor back to its old one.
pub open spec fn rollback_failure(error: Seq<char>, rollback: Seq<char>) -> Seq<char> {
    "rename failed: "@ + error + "; rollback failed: "@ + rollback
}

/// Whether `after` is the step that follows `before` when `event` was found out or done. An event
/// that `before` does not wait for changes nothing.
pub open spec fn rename_step(before: Rename, event: RenameEvent, after: Rename) -> bool {
    match (before, event) {
        (
            Rename::Probe { from_name, temp_name: temp, attempt },
            RenameEvent::Probed { taken, now_ms },
        ) => if taken {
            after matches Rename::Probe { from_name: f, temp_name: t, attempt: a } && f@
                == from_name@ && a == attempt + 1 && t@ == temp_name(from_name@, now_ms, a)
        } else {
            after matches Rename::MoveAside { temp_name: t } && t@ == temp@
        },
        (Rename::MoveAside { temp_name: temp }, RenameEvent::Moved(Ok(_))) => {
            after matches Rename::MoveIn { temp_name: t } && t@ == temp@
        },
        (Rename::MoveAside { temp_name: temp }, RenameEvent::Moved(Err(e))) => rename_fails(
            after,
            e@,
        ),
        (Rename::MoveIn { temp_name: temp }, RenameEvent::Moved(Ok(_))) => {
            after matches Rename::Done(Ok(_))
        },
        (Rename::MoveIn { temp_name: temp }, RenameEvent::Moved(Err(e))) => {
            after matches Rename::MoveBack { temp_name: t, error } && t@ == temp@ && error@ == e@
        },
        (Rename::MoveBack { temp_name: temp, error }, RenameEvent::Moved(Ok(_))) => rename_fails(
            after,
            error@,
        ),
        (Rename::MoveBack { temp_name: temp, error }, RenameEvent::Moved(Err(e))) => rename_fails(
            after,
            rollback_failure(error@, e@),
        ),
        _ => after == before,
    }
}

/// What is said when a file could neither be moved to its new place nor back to its old one.
fn describe_rollback(error: &str, rollback: &str) -> (r: String)
    ensures
        r@ == rollback_failure(error@, rollback@),
{
    let mut out = text::chars_of("rename failed: ");
    let first = text::chars_of(error);
    let middle = text::chars_of("; rollback failed: ");
    let second = text::chars_of(rollback);
    text::append(&mut out, first.as_slice());
    text::append(&mut out, middle.as_slice());
    text::append(&mut out, second.as_slice());
    text::string_of(out.as_slice())
}

impl Rename {
    /// Goes on from what was found out or done.
    pub fn advance(self, event: RenameEvent) -> (r: Rename)
        requires
            self matches Rename::Probe { attempt, .. } ==> attempt < u64::MAX,
        ensures
            rename_step(self, event, r),
    {
        match (self, event) {
            (
                Rename::Probe { from_name, temp_name: temp, attempt },
                RenameEvent::Probed { taken, now_ms },
            ) => if taken {
                let next = make_temp_name(from_name.as_str(), now_ms, attempt + 1);
                Rename::Probe { from_name, temp_name: next, attempt: attempt + 1 }
            } else {
                Rename::MoveAside { temp_name: temp }
            },
            (Rename::MoveAside { temp_name: temp }, RenameEvent::Moved(moved)) => match moved {
                Ok(_) => Rename::MoveIn { temp_name: temp },
                Err(e) => Rename::Done(Err(e)),
            },
            (Rename::MoveIn { temp_name: temp }, RenameEvent::Moved(moved)) => match moved {
                Ok(_) => Rename::Done(Ok(())),
                Err(error) => Rename::MoveBack { temp_name: temp, error },
            },
            (Rename::MoveBack { error, .. }, RenameEvent::Moved(moved)) => match moved {
                Ok(_) => Rename::Done(Err(error)),
                Err(e) => Rename::Done(Err(describe_rollback(error.as_str(), e.as_str()))),
            },
            (state, _) => state,
        }
    }
}

/// Where a file is on its way to a new place.
pub enum Whereabouts {
    OldPlace,
    TemporaryName,
    NewPlace,
}

/// Where a file is after `event` at the step `state`, if it was at `at` before.
pub open spec fn whereabouts_after(
    state: Rename,
    event: RenameEvent,
    at: Whereabouts,
) -> Whereabouts {
    match (state, event) {
        (Rename::MoveAside { temp_name: temp }, RenameEvent::Moved(Ok(_))) => {
            Whereabouts::TemporaryName
        },
        (Rename::MoveIn { temp_name: temp }, RenameEvent::Moved(Ok(_))) => Whereabouts::NewPlace,
        (Rename::MoveBack { temp_name: temp, error }, RenameEvent::Moved(Ok(_))) => {
            Whereabouts::OldPlace
        },
        _ => at,
    }
}

/// Whether a file at the step `state` is where it is meant to be: at its new place after a rename
/// that succeeded, and at its old place after one that failed, unless the way back failed too, which
/// the message then says.
pub open spec fn accounted_for(state: Rename, at: Whereabouts) -> bool {
    match state {
        Rename::Probe { from_name, temp_name: temp, attempt } => at is OldPlace,
        Rename::MoveAside { temp_name: temp } => at is OldPlace,
        Rename::MoveIn { temp_name: temp } => at is TemporaryName,
        Rename::MoveBack { temp_name: temp, error } => at is TemporaryName,
        Rename::Done(Ok(_)) => at is NewPlace,
        Rename::Done(Err(e)) => at is OldPlace || (at is TemporaryName && exists|
            error: Seq<char>,
            rollback: Seq<char>,
        | e@ == #[trigger] rollback_failure(error, rollback)),
    }
}

/// No rename loses its file: from step to step the file is where it is meant to be.
pub proof fn law_rename_does_not_lose_its_file(
    before: Rename,
    event: RenameEvent,
    after: Rename,
    at: Whereabouts,
)
    requires
        rename_step(before, event, after),
        accounted_for(before, at),
    ensures
        accounted_for(after, whereabouts_after(before, event, at)),
{
}

} // verus!
