use crate::link_laws;
use crate::text;
use crate::vault_path;
use crate::vault_path::{AbsPath, PartView, PathReading, ReadingView};
use vstd::prelude::*;
use vstd::utf8::*;

verus! {

/// What a look at one place on the way from the vault root found.
#[derive(Debug)]
pub enum LinkProbe {
    Missing,
    Plain,
    Symlink,
    Unreadable(String),
}

/// The search for the place of a note in the file system: what has to be found out next.
#[derive(Debug)]
pub enum VaultLookup {
    /// The canonical path of the vault root.
    Root { rel: Vec<String>, for_write: bool },
    /// What is at the first `depth + 1` of the names `rel` below `base`.
    Link { base: AbsPath, rel: Vec<String>, depth: usize },
    /// The canonical path of `base`.
    Base { base: AbsPath, rel: Vec<String> },
    /// Whether anything is at the place `up` levels above the names `rel` below `base`.
    Probe { base: AbsPath, rel: Vec<String>, up: usize },
    /// The canonical path of that place.
    Canonical { base: AbsPath, rel: Vec<String>, up: usize },
    /// Nothing more.
    Done(Result<AbsPath, String>),
}

/// What was found out.
#[derive(Debug)]
pub enum LookupEvent {
    Canonical(Result<AbsPath, String>),
    Link(LinkProbe),
    Exists(bool),
}

/// What a lookup holds.
#[verifier::ext_equal]
pub enum LookupView {
    Root { rel: Seq<Seq<char>>, for_write: bool },
    Link { base: Seq<Seq<u8>>, rel: Seq<Seq<char>>, depth: int },
    Base { base: Seq<Seq<u8>>, rel: Seq<Seq<char>> },
    Probe { base: Seq<Seq<u8>>, rel: Seq<Seq<char>>, up: int },
    Canonical { base: Seq<Seq<u8>>, rel: Seq<Seq<char>>, up: int },
    Done(Result<Seq<Seq<u8>>, Seq<char>>),
}

/// The path or the message that an outcome holds.
pub open spec fn outcome(r: Result<AbsPath, String>) -> Result<Seq<Seq<u8>>, Seq<char>> {
    match r {
        Ok(path) => Ok(path@),
        Err(e) => Err(e@),
    }
}

impl View for VaultLookup {
    type V = LookupView;

    open spec fn view(&self) -> LookupView {
        match *self {
            VaultLookup::Root { rel, for_write } => LookupView::Root {
                rel: text::texts(rel@),
                for_write,
            },
            VaultLookup::Link { base, rel, depth } => LookupView::Link {
                base: base@,
                rel: text::texts(rel@),
                depth: depth as int,
            },
            VaultLookup::Base { base, rel } => LookupView::Base {
                base: base@,
                rel: text::texts(rel@),
            },
            VaultLookup::Probe { base, rel, up } => LookupView::Probe {
                base: base@,
                rel: text::texts(rel@),
                up: up as int,
            },
            VaultLookup::Canonical { base, rel, up } => LookupView::Canonical {
                base: base@,
                rel: text::texts(rel@),
                up: up as int,
            },
            VaultLookup::Done(r) => LookupView::Done(outcome(r)),
        }
    }
}

/// The first state of the search for the note at a path that was read as `reading`. Before a write,
/// no name on the way may be a symbolic link.
pub open spec fn first_state(reading: ReadingView, for_write: bool) -> LookupView {
    match vault_path::path_fault(reading) {
        Some(fault) => LookupView::Done(Err(fault)),
        None => LookupView::Root { rel: vault_path::names(reading), for_write },
    }
}

/// Whether `state` can be the first state of the search for the note at `note_rel`, as a machine
/// reads that path.
pub open spec fn begins(state: LookupView, note_rel: Seq<char>, for_write: bool) -> bool {
    exists|reading: ReadingView| #[trigger]
        vault_path::reads(note_rel, reading) && state == first_state(reading, for_write)
}

/// The state after the vault root was found at `found`.
pub open spec fn after_root(
    rel: Seq<Seq<char>>,
    for_write: bool,
    found: Result<Seq<Seq<u8>>, Seq<char>>,
) -> LookupView {
    match found {
        Err(e) => LookupView::Done(Err(e)),
        Ok(base) => if !for_write {
            LookupView::Probe { base, rel, up: 0 }
        } else if rel.len() == 0 {
            LookupView::Base { base, rel }
        } else {
            LookupView::Link { base, rel, depth: 0 }
        },
    }
}

/// The state after the place of the first `depth + 1` names was looked at.
pub open spec fn after_link(
    base: Seq<Seq<u8>>,
    rel: Seq<Seq<char>>,
    depth: int,
    probe: LinkProbe,
) -> LookupView {
    match probe {
        LinkProbe::Missing => LookupView::Base { base, rel },
        LinkProbe::Symlink => LookupView::Done(Err("note path contains symlink component"@)),
        LinkProbe::Unreadable(e) => LookupView::Done(Err(e@)),
        LinkProbe::Plain => if depth + 1 < rel.len() {
            LookupView::Link { base, rel, depth: depth + 1 }
        } else {
            LookupView::Base { base, rel }
        },
    }
}

/// The path that is looked for, before links are followed: `rel` below `base`.
pub open spec fn candidate(base: Seq<Seq<u8>>, rel: Seq<Seq<char>>) -> Seq<Seq<u8>> {
    base + vault_path::encoded(rel)
}

/// The state after it was found out whether anything is `up` levels above the candidate.
pub open spec fn after_probe(
    base: Seq<Seq<u8>>,
    rel: Seq<Seq<char>>,
    up: int,
    present: bool,
) -> LookupView {
    if present {
        LookupView::Canonical { base, rel, up }
    } else if up < candidate(base, rel).len() {
        LookupView::Probe { base, rel, up: up + 1 }
    } else {
        LookupView::Done(Err("note path escapes vault"@))
    }
}

/// Where the note is, once the nearest place above it that exists was found at `found`: the rest
/// of the way below that, if it lies below the vault root.
pub open spec fn place(
    base: Seq<Seq<u8>>,
    rel: Seq<Seq<char>>,
    up: int,
    found: Result<Seq<Seq<u8>>, Seq<char>>,
) -> Result<Seq<Seq<u8>>, Seq<char>> {
    match found {
        Err(e) => Err(e),
        Ok(at) => if base.is_prefix_of(at) {
            Ok(at + candidate(base, rel).skip(candidate(base, rel).len() - up))
        } else {
            Err("note path escapes vault"@)
        },
    }
}

/// The state that follows `state` when `event` is found out. An event that `state` does not wait
/// for changes nothing.
pub open spec fn next_state(state: LookupView, event: LookupEvent) -> LookupView {
    match (state, event) {
        (LookupView::Root { rel, for_write }, LookupEvent::Canonical(found)) => after_root(
            rel,
            for_write,
            outcome(found),
        ),
        (LookupView::Link { base, rel, depth }, LookupEvent::Link(probe)) => after_link(
            base,
            rel,
            depth,
            probe,
        ),
        (LookupView::Base { base, rel }, LookupEvent::Canonical(found)) => after_root(
            rel,
            false,
            outcome(found),
        ),
        (LookupView::Probe { base, rel, up }, LookupEvent::Exists(present)) => after_probe(
            base,
            rel,
            up,
            present,
        ),
        (LookupView::Canonical { base, rel, up }, LookupEvent::Canonical(found)) => LookupView::Done(
            place(base, rel, up, outcome(found)),
        ),
        _ => state,
    }
}

/// Whether the counters of a state are within their bounds.
pub open spec fn in_bounds(state: LookupView) -> bool {
    match state {
        LookupView::Link { base, rel, depth } => 0 <= depth < rel.len(),
        LookupView::Probe { base, rel, up } => 0 <= up <= candidate(base, rel).len() <= usize::MAX,
        LookupView::Canonical { base, rel, up } => 0 <= up <= candidate(base, rel).len()
            <= usize::MAX,
        _ => true,
    }
}

/// Whether the names `rel` below the path that was found can be counted.
pub open spec fn countable(rel: Seq<Seq<char>>, found: Result<Seq<Seq<u8>>, Seq<char>>) -> bool {
    match found {
        Ok(base) => candidate(base, rel).len() <= usize::MAX,
        Err(_) => true,
    }
}

/// Whether the path that is looked for after `event` has names that can be counted.
pub open spec fn countable_after(state: LookupView, event: LookupEvent) -> bool {
    match (state, event) {
        (LookupView::Root { rel, for_write }, LookupEvent::Canonical(found)) => countable(
            rel,
            outcome(found),
        ),
        (LookupView::Base { base, rel }, LookupEvent::Canonical(found)) => countable(
            rel,
            outcome(found),
        ),
        _ => true,
    }
}

/// Begins the search for the place of the note at a path that was read as `reading`, which is to be
/// written if `for_write` is set.
pub fn begin_lookup(reading: PathReading, for_write: bool) -> (r: VaultLookup)
    ensures
        r@ == first_state(reading@, for_write),
        in_bounds(r@),
{
    match vault_path::safe_names(reading) {
        Ok(rel) => VaultLookup::Root { rel, for_write },
        Err(e) => VaultLookup::Done(Err(e)),
    }
}

/// Begins the search for the place of the note at `note_rel`.
pub fn safe_vault_abs(note_rel: &str) -> (r: VaultLookup)
    ensures
        begins(r@, note_rel@, false),
        in_bounds(r@),
{
    let reading = vault_path::read_path(note_rel);
    let ghost view = reading@;
    let r = begin_lookup(reading, false);
    assert(vault_path::reads(note_rel@, view));
    r
}

/// Begins the search for the place of the note at `note_rel`, which is to be written.
pub fn safe_vault_abs_for_write(note_rel: &str) -> (r: VaultLookup)
    ensures
        begins(r@, note_rel@, true),
        in_bounds(r@),
{
    let reading = vault_path::read_path(note_rel);
    let ghost view = reading@;
    let r = begin_lookup(reading, true);
    assert(vault_path::reads(note_rel@, view));
    r
}

/// Goes on from the canonical path of the vault root.
pub fn canonical_vault_root(
    rel: Vec<String>,
    for_write: bool,
    found: Result<AbsPath, String>,
) -> (r: VaultLookup)
    requires
        countable(text::texts(rel@), outcome(found)),
    ensures
        r@ == after_root(text::texts(rel@), for_write, outcome(found)),
        in_bounds(r@),
{
    match found {
        Err(e) => VaultLookup::Done(Err(e)),
        Ok(base) => if !for_write {
            VaultLookup::Probe { base, rel, up: 0 }
        } else if rel.len() == 0 {
            VaultLookup::Base { base, rel }
        } else {
            VaultLookup::Link { base, rel, depth: 0 }
        },
    }
}

/// Goes on from what is at the first `depth + 1` of the names `rel` below `base`: a symbolic link
/// ends the search, a missing name ends the look for links.
pub fn reject_symlink_components(
    base: AbsPath,
    rel: Vec<String>,
    depth: usize,
    probe: LinkProbe,
) -> (r: VaultLookup)
    requires
        depth < rel.len(),
    ensures
        r@ == after_link(base@, text::texts(rel@), depth as int, probe),
        in_bounds(r@),
{
    match probe {
        LinkProbe::Missing => VaultLookup::Base { base, rel },
        LinkProbe::Symlink => VaultLookup::Done(
            Err("note path contains symlink component".to_owned()),
        ),
        LinkProbe::Unreadable(e) => VaultLookup::Done(Err(e)),
        LinkProbe::Plain => if depth + 1 < rel.len() {
            VaultLookup::Link { base, rel, depth: depth + 1 }
        } else {
            VaultLookup::Base { base, rel }
        },
    }
}

/// Goes on from whether anything is `up` levels above the names `rel` below `base`: up to the
/// nearest place that exists.
pub fn resolve_under_vault_root(base: AbsPath, rel: Vec<String>, up: usize, present: bool) -> (r:
    VaultLookup)
    requires
        up <= candidate(base@, text::texts(rel@)).len() <= usize::MAX,
    ensures
        r@ == after_probe(base@, text::texts(rel@), up as int, present),
        in_bounds(r@),
{
    let base_len = base.names.len();
    let rel_len = rel.len();
    if present {
        VaultLookup::Canonical { base, rel, up }
    } else if up < base_len || up - base_len < rel_len {
        VaultLookup::Probe { base, rel, up: up + 1 }
    } else {
        VaultLookup::Done(Err("note path escapes vault".to_owned()))
    }
}

/// Where the note is, once the nearest place above it that exists was found.
pub fn resolved_place(base: &AbsPath, rel: &Vec<String>, up: usize, found: Result<AbsPath, String>)
    -> (r: Result<AbsPath, String>)
    requires
        up <= candidate(base@, text::texts(rel@)).len(),
    ensures
        outcome(r) == place(base@, text::texts(rel@), up as int, outcome(found)),
{
    let at = match found {
        Ok(at) => at,
        Err(e) => {
            return Err(e);
        },
    };
    if !at.starts_with(base) {
        return Err("note path escapes vault".to_owned());
    }
    let ghost all = candidate(base@, text::texts(rel@));
    let ghost start = at@;
    let mut names = at.names;
    let mut left: usize = up;
    proof {
        assert(all.subrange(all.len() - up, all.len() - up) =~= Seq::<Seq<u8>>::empty());
        assert(start + Seq::<Seq<u8>>::empty() =~= start);
    }
    while left > 0
        invariant
            left <= up <= all.len(),
            all == candidate(base@, text::texts(rel@)),
            vault_path::byte_rows(names@) == start + all.subrange(
                all.len() - up,
                all.len() - left,
            ),
        decreases left,
    {
        let ghost before = names@;
        let name = if left > rel.len() {
            let i = base.names.len() - (left - rel.len());
            assert(base@[i as int] == all[all.len() - left]);
            text::copied_bytes(base.names[i].as_slice())
        } else {
            let i = rel.len() - left;
            assert(encode_utf8(rel@[i as int]@) == all[all.len() - left]);
            text::bytes_of(rel[i].as_str())
        };
        names.push(name);
        left -= 1;
        proof {
            assert(vault_path::byte_rows(names@) =~= vault_path::byte_rows(before).push(name@));
            assert(all.subrange(all.len() - up, all.len() - left) =~= all.subrange(
                all.len() - up,
                all.len() - left - 1,
            ).push(name@));
        }
    }
    proof {
        assert(all.subrange(all.len() - up, all.len() as int) =~= all.skip(all.len() - up));
    }
    Ok(AbsPath { names })
}

impl VaultLookup {
    /// Goes on from what was found out.
    pub fn advance(self, event: LookupEvent) -> (r: VaultLookup)
        requires
            in_bounds(self@),
            countable_after(self@, event),
        ensures
            r@ == next_state(self@, event),
            in_bounds(r@),
    {
        match (self, event) {
            (VaultLookup::Root { rel, for_write }, LookupEvent::Canonical(found)) => {
                canonical_vault_root(rel, for_write, found)
            },
            (VaultLookup::Link { base, rel, depth }, LookupEvent::Link(probe)) => {
                reject_symlink_components(base, rel, depth, probe)
            },
            (VaultLookup::Base { base, rel }, LookupEvent::Canonical(found)) => {
                canonical_vault_root(rel, false, found)
            },
            (VaultLookup::Probe { base, rel, up }, LookupEvent::Exists(present)) => {
                resolve_under_vault_root(base, rel, up, present)
            },
            (VaultLookup::Canonical { base, rel, up }, LookupEvent::Canonical(found)) => {
                VaultLookup::Done(resolved_place(&base, &rel, up, found))
            },
            (state, _) => state,
        }
    }
}

/// The names below a directory and the leaf name that a rename target is made of.
#[derive(Debug)]
pub struct RenameTarget {
    pub parent: Vec<String>,
    pub leaf: String,
}

/// Whether `r` is what comes of splitting a path that was read as `reading` into the names of its
/// directory and its own name.
pub open spec fn splits(r: Result<RenameTarget, String>, reading: ReadingView) -> bool {
    match r {
        Ok(target) => vault_path::path_fault(reading) is None && vault_path::names(reading)
            == text::texts(target.parent@).push(target.leaf@),
        Err(e) => match vault_path::path_fault(reading) {
            Some(fault) => e@ == fault,
            None => vault_path::names(reading).len() == 0 && e@
                == "note path must include a leaf name"@,
        },
    }
}

/// Splits the path that something is to be renamed to, which was read as `reading`, into the names
/// of its directory and its own name.
pub fn split_rename_target(reading: PathReading) -> (r: Result<RenameTarget, String>)
    ensures
        splits(r, reading@),
{
    let ghost view = reading@;
    let mut rel = match vault_path::safe_names(reading) {
        Ok(rel) => rel,
        Err(e) => {
            return Err(e);
        },
    };
    let ghost all = text::texts(rel@);
    assert(all == vault_path::names(view));
    match rel.pop() {
        Some(leaf) => {
            assert(all =~= text::texts(rel@).push(leaf@));
            Ok(RenameTarget { parent: rel, leaf })
        },
        None => Err("note path must include a leaf name".to_owned()),
    }
}

/// Splits the path that something is to be renamed to into the names of its directory and its own
/// name.
pub fn safe_vault_rename_target_abs(target_rel: &str) -> (r: Result<RenameTarget, String>)
    ensures
        exists|reading: ReadingView| #[trigger]
            vault_path::reads(target_rel@, reading) && splits(r, reading),
{
    let reading = vault_path::read_path(target_rel);
    let ghost view = reading@;
    let r = split_rename_target(reading);
    assert(vault_path::reads(target_rel@, view));
    r
}

/// The place of `leaf` in the directory `parent`, if it lies below `base`.
pub fn rename_target_under(base: &AbsPath, parent: &AbsPath, leaf: &str) -> (r: Result<
    AbsPath,
    String,
>)
    ensures
        outcome(r) == if base@.is_prefix_of(parent@.push(encode_utf8(leaf@))) {
            Ok(parent@.push(encode_utf8(leaf@)))
        } else {
            Err("note path escapes vault"@)
        },
{
    let mut target = parent.copy();
    let ghost before = target.names@;
    target.names.push(text::bytes_of(leaf));
    proof {
        assert(target@ =~= vault_path::byte_rows(before).push(encode_utf8(leaf@)));
    }
    if target.starts_with(base) {
        Ok(target)
    } else {
        Err("note path escapes vault".to_owned())
    }
}

/// A note is only ever found at or below the canonical path of the vault root.
pub proof fn law_found_place_lies_in_vault(state: LookupView, event: LookupEvent)
    requires
        !(state is Done),
    ensures
        match next_state(state, event) {
            LookupView::Done(Ok(path)) => match state {
                LookupView::Canonical { base, rel, up } => base.is_prefix_of(path),
                _ => false,
            },
            _ => true,
        },
{
    if let LookupView::Canonical { base, rel, up } = state {
        if let LookupEvent::Canonical(found) = event {
            if let Ok(at) = outcome(found) {
                let all = candidate(base, rel);
                let path = at + all.skip(all.len() - up);
                if base.is_prefix_of(at) {
                    assert(path.take(base.len() as int) =~= at.take(base.len() as int));
                }
            }
        }
    }
}

/// The first of the places from `depth` on to `n` at which there is something other than a plain
/// file or directory.
pub open spec fn first_not_plain(probe: spec_fn(int) -> LinkProbe, depth: int, n: int) -> Option<int>
    decreases n - depth,
{
    if depth >= n {
        None
    } else if probe(depth) is Plain {
        first_not_plain(probe, depth + 1, n)
    } else {
        Some(depth)
    }
}

/// The state that the search comes to when the names from `depth` on have been looked at, if
/// `probe` says what is at each.
pub open spec fn linked(
    base: Seq<Seq<u8>>,
    rel: Seq<Seq<char>>,
    depth: int,
    probe: spec_fn(int) -> LinkProbe,
) -> LookupView
    decreases rel.len() - depth,
{
    match after_link(base, rel, depth, probe(depth)) {
        LookupView::Link { base: b, rel: r, depth: next } => if depth + 1 < rel.len() {
            linked(base, rel, depth + 1, probe)
        } else {
            LookupView::Base { base, rel }
        },
        state => state,
    }
}

/// Before a write each name on the way is looked at in turn, up to one that is missing: the search
/// goes on only if none of them is a symbolic link or cannot be read, and else ends with the error
/// of the first that is.
pub proof fn law_every_name_is_looked_at(
    base: Seq<Seq<u8>>,
    rel: Seq<Seq<char>>,
    depth: int,
    probe: spec_fn(int) -> LinkProbe,
)
    requires
        0 <= depth < rel.len(),
    ensures
        linked(base, rel, depth, probe) == match first_not_plain(
            probe,
            depth,
            rel.len() as int,
        ) {
            None => LookupView::Base { base, rel },
            Some(i) => match probe(i) {
                LinkProbe::Symlink => LookupView::Done(
                    Err("note path contains symlink component"@),
                ),
                LinkProbe::Unreadable(e) => LookupView::Done(Err(e@)),
                _ => LookupView::Base { base, rel },
            },
        },
    decreases rel.len() - depth,
{
    if probe(depth) is Plain {
        if depth + 1 < rel.len() {
            law_every_name_is_looked_at(base, rel, depth + 1, probe);
        } else {
            assert(first_not_plain(probe, depth + 1, rel.len() as int) is None);
        }
    }
}

/// The least number of levels from `up` on at which `present` holds, but not beyond `top`.
pub open spec fn nearest(present: spec_fn(int) -> bool, up: int, top: int) -> Option<int>
    decreases top + 1 - up,
{
    if up > top {
        None
    } else if present(up) {
        Some(up)
    } else {
        nearest(present, up + 1, top)
    }
}

/// The state that the search comes to from `up` levels above the candidate, if `present` says at
/// which levels there is something.
pub open spec fn probed(
    base: Seq<Seq<u8>>,
    rel: Seq<Seq<char>>,
    up: int,
    present: spec_fn(int) -> bool,
) -> LookupView
    decreases candidate(base, rel).len() - up,
{
    match after_probe(base, rel, up, present(up)) {
        LookupView::Probe { base: b, rel: r, up: next } => if up < candidate(base, rel).len() {
            probed(base, rel, up + 1, present)
        } else {
            LookupView::Done(Err("note path escapes vault"@))
        },
        state => state,
    }
}

/// The search goes up to the nearest place that exists, and fails if there is none.
pub proof fn law_probing_finds_nearest(
    base: Seq<Seq<u8>>,
    rel: Seq<Seq<char>>,
    up: int,
    present: spec_fn(int) -> bool,
)
    requires
        0 <= up <= candidate(base, rel).len(),
    ensures
        probed(base, rel, up, present) == match nearest(
            present,
            up,
            candidate(base, rel).len() as int,
        ) {
            Some(level) => LookupView::Canonical { base, rel, up: level },
            None => LookupView::Done(Err("note path escapes vault"@)),
        },
    decreases candidate(base, rel).len() - up,
{
    if !present(up) && up < candidate(base, rel).len() {
        law_probing_finds_nearest(base, rel, up + 1, present);
    } else if !present(up) {
        assert(nearest(present, up + 1, candidate(base, rel).len() as int) is None);
    }
}

/// The names of a path that is accepted name something each: none is empty, `.` or `..`, and none
/// holds a slash.
pub proof fn law_accepted_names_are_plain(path: Seq<char>, reading: ReadingView)
    requires
        vault_path::reads(path, reading),
        vault_path::path_fault(reading) is None,
    ensures
        link_laws::plain_segments(vault_path::names(reading)),
{
    let all = vault_path::names(reading);
    assert(vault_path::without_prefix(reading.parts));
    assert forall|i: int| 0 <= i < all.len() implies link_laws::plain_segment(#[trigger] all[i]) by {
        assert(reading.parts[i] is Name);
    }
}

proof fn lemma_plain_parts(parts: Seq<Seq<char>>)
    requires
        link_laws::plain_segments(parts),
    ensures
        vault_path::inner_parts(parts).len() == parts.len(),
        forall|i: int|
            0 <= i < parts.len() ==> #[trigger] vault_path::inner_parts(parts)[i]
                == PartView::Name(parts[i]),
    decreases parts.len(),
{
    if parts.len() > 0 {
        let front = parts.drop_last();
        assert forall|i: int| 0 <= i < front.len() implies link_laws::plain_segment(
            #[trigger] front[i],
        ) by {
            assert(front[i] == parts[i]);
        }
        lemma_plain_parts(front);
        assert(link_laws::plain_segment(parts[parts.len() - 1]));
        assert forall|i: int|
            0 <= i < parts.len() implies #[trigger] vault_path::inner_parts(parts)[i]
            == PartView::Name(parts[i]) by {
            if i < front.len() {
                assert(vault_path::inner_parts(front)[i] == PartView::Name(front[i]));
            }
        }
    }
}

/// A path that leads straight down from the vault root, as links resolve to, is accepted wherever
/// all machines read it alike, and its names are its segments.
pub proof fn law_plain_paths_are_accepted(path: Seq<char>, reading: ReadingView)
    requires
        link_laws::plain_path(path),
        vault_path::portable(path),
        vault_path::reads(path, reading),
    ensures
        vault_path::path_fault(reading) is None,
        vault_path::names(reading) == text::split_on(path, '/'),
{
    let parts = text::split_on(path, '/');
    text::lemma_split_nonempty(path, '/');
    lemma_plain_parts(parts);
    assert(link_laws::plain_segment(parts[0]));
    if vault_path::rooted(path) {
        assert(path =~= Seq::<char>::empty() + seq!['/'] + path.skip(1));
        text::lemma_split_concat(Seq::empty(), path.skip(1), '/');
        assert(parts[0] == text::split_on(Seq::<char>::empty(), '/')[0]);
    }
    assert(reading.parts =~= vault_path::inner_parts(parts));
    assert forall|i: int| 0 <= i < reading.parts.len() implies (
    #[trigger] reading.parts[i]) is Name by {
        assert(vault_path::inner_parts(parts)[i] == PartView::Name(parts[i]));
    }
    assert(vault_path::names(reading) =~= parts) by {
        assert forall|i: int| 0 <= i < parts.len() implies vault_path::names(reading)[i]
            == parts[i] by {
            assert(vault_path::inner_parts(parts)[i] == PartView::Name(parts[i]));
        }
    }
}

} // verus!
