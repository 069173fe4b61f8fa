use crate::note_files;
use crate::note_files::{Rename, RenameEvent};
use crate::text;
use crate::text_laws;
use vstd::prelude::*;

verus! {

proof fn lemma_same_behind(head: Seq<char>, a: Seq<char>, b: Seq<char>)
    requires
        head + a == head + b,
    ensures
        a == b,
{
    let n = head.len() as int;
    assert((head + a).skip(n) =~= a);
    assert((head + b).skip(n) =~= b);
}

/// The temporary name of a file is its name with a dot before it, and behind it `.rename.`, the
/// time, from the second attempt on a dot and the number of attempts before, and `.tmp`.
pub proof fn law_temporary_name(name: Seq<char>, now_ms: u64, attempt: u64)
    ensures
        note_files::temp_name(name, now_ms, 0) == seq!['.'] + name + seq![
            '.', 'r', 'e', 'n', 'a', 'm', 'e', '.',
        ] + text::decimal(now_ms as nat) + seq!['.', 't', 'm', 'p'],
        attempt > 0 ==> note_files::temp_name(name, now_ms, attempt) == seq!['.'] + name + seq![
            '.', 'r', 'e', 'n', 'a', 'm', 'e', '.',
        ] + text::decimal(now_ms as nat) + seq!['.'] + text::decimal(attempt as nat) + seq![
            '.', 't', 'm', 'p',
        ],
{
    reveal_strlit(".");
    reveal_strlit(".rename.");
    reveal_strlit(".tmp");
    assert("."@ =~= seq!['.']);
    assert(".rename."@ =~= seq!['.', 'r', 'e', 'n', 'a', 'm', 'e', '.']);
    assert(".tmp"@ =~= seq!['.', 't', 'm', 'p']);
}

/// At one time, two attempts from the second on have different temporary names.
pub proof fn law_attempts_differ(name: Seq<char>, now_ms: u64, a: u64, b: u64)
    requires
        a != b,
        a > 0,
        b > 0,
    ensures
        note_files::temp_name(name, now_ms, a) != note_files::temp_name(name, now_ms, b),
{
    law_temporary_name(name, now_ms, a);
    law_temporary_name(name, now_ms, b);
    let tmp = seq!['.', 't', 'm', 'p'];
    let head = seq!['.'] + name + seq!['.', 'r', 'e', 'n', 'a', 'm', 'e', '.'] + text::decimal(
        now_ms as nat,
    ) + seq!['.'];
    let x = text::decimal(a as nat);
    let y = text::decimal(b as nat);
    if note_files::temp_name(name, now_ms, a) == note_files::temp_name(name, now_ms, b) {
        assert(head + x + tmp =~= head + (x + tmp));
        assert(head + y + tmp =~= head + (y + tmp));
        lemma_same_behind(head, x + tmp, y + tmp);
        assert(x.len() == y.len()) by {
            assert((x + tmp).len() == x.len() + 4);
            assert((y + tmp).len() == y.len() + 4);
        }
        assert((x + tmp).take(x.len() as int) =~= x);
        assert((y + tmp).take(x.len() as int) =~= y);
        text_laws::law_decimal_is_one_to_one(a as nat, b as nat);
    }
}

/// A name that is taken is not used: it is tried again with another, which is made from the time of
/// the look and one attempt more. A name that is free is the one that the file gets.
pub proof fn law_free_name_is_used(
    from_name: String,
    temp: String,
    attempt: u64,
    taken: bool,
    now_ms: u64,
    after: Rename,
)
    requires
        note_files::rename_step(
            Rename::Probe { from_name, temp_name: temp, attempt },
            RenameEvent::Probed { taken, now_ms },
            after,
        ),
    ensures
        !taken ==> (after matches Rename::MoveAside { temp_name: t } && t@ == temp@),
        taken ==> (after matches Rename::Probe { from_name: f, temp_name: t, attempt: a } && f@
            == from_name@ && a == attempt + 1 && t@ == note_files::temp_name(
            from_name@,
            now_ms,
            a,
        )),
{
}

/// A file is moved by way of one temporary name, and each error is told: the first move fails with
/// its own error; a failed second move is undone and told then, together with the error of the way
/// back if that fails too.
pub proof fn law_moves_are_told(
    temp: String,
    aside: Result<(), String>,
    moving: Rename,
    moved: Result<(), String>,
    ended: Rename,
    back: Result<(), String>,
    undone: Rename,
)
    requires
        note_files::rename_step(
            Rename::MoveAside { temp_name: temp },
            RenameEvent::Moved(aside),
            moving,
        ),
        note_files::rename_step(moving, RenameEvent::Moved(moved), ended),
        note_files::rename_step(ended, RenameEvent::Moved(back), undone),
    ensures
        match (aside, moved, back) {
            (Err(e), _, _) => moving matches Rename::Done(Err(told)) && told@ == e@ && ended
                == moving && undone == moving,
            (Ok(_), Ok(_), _) => {
                &&& moving matches Rename::MoveIn { temp_name: t } && t@ == temp@
                &&& ended matches Rename::Done(Ok(_))
                &&& undone == ended
            },
            (Ok(_), Err(e), Ok(_)) => {
                &&& moving matches Rename::MoveIn { temp_name: t } && t@ == temp@
                &&& ended matches Rename::MoveBack { temp_name: t, error } && t@ == temp@
                    && error@ == e@
                &&& undone matches Rename::Done(Err(told)) && told@ == e@
            },
            (Ok(_), Err(e), Err(f)) => {
                &&& moving matches Rename::MoveIn { temp_name: t } && t@ == temp@
                &&& ended matches Rename::MoveBack { temp_name: t, error } && t@ == temp@
                    && error@ == e@
                &&& undone matches Rename::Done(Err(told)) && told@ == "rename failed: "@ + e@
                    + "; rollback failed: "@ + f@
            },
        },
{
}

} // verus!
