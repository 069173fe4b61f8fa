use crate::image_asset;
use crate::link_laws;
use crate::note_meta;
use crate::note_moves;
use crate::note_moves::ItemView;
use crate::text;
use crate::text_laws;
use crate::text_laws::{ascending, lemma_ascending_push};
use crate::vault_lookup;
use crate::vault_lookup::{LookupEvent, LookupView, RenameTarget};
use crate::vault_path;
use crate::vault_path::{AbsPath, PartView, PathPart, ReadingView};
use vstd::prelude::*;
use vstd::utf8::*;

verus! {

/// A file name that is made of a stem, a dot and an extension is taken apart into them again.
pub proof fn law_stem_and_extension(stem: Seq<char>, extension: Seq<char>)
    requires
        stem.len() > 0,
        !extension.contains('.'),
    ensures
        vault_path::stem_of(stem + seq!['.'] + extension) == stem,
        vault_path::extension_of(stem + seq!['.'] + extension) == Some(extension),
        vault_path::leaf_stem(Some(stem + seq!['.'] + extension)) == Some(stem),
        vault_path::leaf_extension(Some(stem + seq!['.'] + extension)) == Some(extension),
{
    let name = stem + seq!['.'] + extension;
    text_laws::lemma_last_at_behind(stem, '.', extension);
    assert(name.take(stem.len() as int) =~= stem);
    assert(name.skip(stem.len() as int + 1) =~= extension);
}

/// A file name with no dot behind its first character has no extension and is its own stem; where
/// there is no file name, there is neither.
pub proof fn law_name_without_extension(name: Seq<char>)
    requires
        forall|k: int| 0 < k < name.len() ==> #[trigger] name[k] != '.',
    ensures
        vault_path::stem_of(name) == name,
        vault_path::extension_of(name) is None,
        vault_path::leaf_stem(Some(name)) == Some(name),
        vault_path::leaf_extension(Some(name)) is None,
        vault_path::leaf_stem(None) is None,
        vault_path::leaf_extension(None) is None,
{
    text_laws::law_last_at(name, '.');
}

/// The bytes of a file name that are a stem, a dot and an extension give that stem.
pub proof fn law_stem_bytes(stem: Seq<u8>, extension: Seq<u8>)
    requires
        !extension.contains(0x2e),
    ensures
        stem.len() > 0 ==> note_meta::stem_bytes(stem + seq![0x2eu8] + extension) == stem,
        stem.len() == 0 ==> note_meta::stem_bytes(stem + seq![0x2eu8] + extension) == stem + seq![
            0x2eu8,
        ] + extension,
        note_meta::stem_bytes(extension) == extension,
{
    let name = stem + seq![0x2eu8] + extension;
    text_laws::law_last_byte_at(name, '.' as u8);
    let i = text::last_byte_at(name, '.' as u8);
    assert(name[stem.len() as int] == 0x2e);
    if i > stem.len() {
        assert(extension[i - stem.len() - 1] == 0x2e);
    }
    assert(name.take(stem.len() as int) =~= stem);
    text_laws::law_last_byte_at(extension, '.' as u8);
    let j = text::last_byte_at(extension, '.' as u8);
    if j >= 0 {
        assert(extension[j] == 0x2e);
    }
}

/// The name of a note file is at least one byte, followed by the bytes of `.md`.
pub proof fn law_note_file_name(name: Seq<u8>)
    ensures
        note_meta::named_as_note(name) <==> name.len() >= 4 && name[name.len() - 3] == 0x2e
            && name[name.len() - 2] == 0x6d && name[name.len() - 1] == 0x64,
{
    text_laws::law_last_byte_at(name, '.' as u8);
    let i = text::last_byte_at(name, '.' as u8);
    let n = name.len() as int;
    let md = seq!['m' as u8, 'd' as u8];
    assert(md.len() == 2 && md[0] == 0x6d && md[1] == 0x64);
    if note_meta::named_as_note(name) {
        assert(name.skip(i + 1).len() == n - i - 1);
        assert(name.skip(i + 1)[0] == name[i + 1]);
        assert(name.skip(i + 1)[1] == name[i + 2]);
    } else if n >= 4 && name[n - 3] == 0x2e && name[n - 2] == 0x6d && name[n - 1] == 0x64 {
        assert(i == n - 3);
        assert(name.skip(i + 1) =~= md);
    }
}

/// The name of a note is what stands behind the last slash of its path, without the `.md` at its
/// end.
pub proof fn law_note_name(dir: Seq<char>, name: Seq<char>)
    requires
        !name.contains('/'),
    ensures
        note_meta::note_name(dir + seq!['/'] + name + seq!['.', 'm', 'd']) == name,
        note_meta::note_name(name + seq!['.', 'm', 'd']) == name,
        name.len() < 3 || name.skip(name.len() - 3) != seq!['.', 'm', 'd'] ==> note_meta::note_name(
            dir + seq!['/'] + name,
        ) == name && note_meta::note_name(name) == name,
{
    reveal_strlit(".md");
    let md = seq!['.', 'm', 'd'];
    assert(".md"@ =~= md);
    let leaf = name + md;
    assert forall|k: int| 0 <= k < leaf.len() implies leaf[k] != '/' by {
        if k < name.len() {
            assert(name[k] == leaf[k]);
        }
    }
    assert(leaf.skip(leaf.len() - 3) =~= md);
    assert(leaf.take(leaf.len() - 3) =~= name);
    let path = dir + seq!['/'] + leaf;
    assert(dir + seq!['/'] + name + md =~= path);
    text_laws::lemma_last_at_behind(dir, '/', leaf);
    assert(path.skip(dir.len() as int + 1) =~= leaf);
    text_laws::law_last_at(leaf, '/');
    assert(leaf.skip(0) =~= leaf);
    text_laws::lemma_last_at_behind(dir, '/', name);
    assert((dir + seq!['/'] + name).skip(dir.len() as int + 1) =~= name);
    text_laws::law_last_at(name, '/');
    let j = text::last_at(name, '/');
    if j >= 0 {
        assert(name[j] == '/');
    }
    assert(name.skip(0) =~= name);
}

proof fn lemma_first_line(lines: Seq<Seq<char>>, n: int, k: int)
    requires
        0 <= n <= k <= lines.len(),
        forall|j: int| n <= j < k ==> text::trim(#[trigger] lines[j]).len() == 0,
    ensures
        note_meta::first_line(lines, n) == note_meta::first_line(lines, k),
    decreases k - n,
{
    if n < k {
        assert(text::trim(lines[n]).len() == 0);
        lemma_first_line(lines, n + 1, k);
    }
}

/// The title of a note is decided by its first line with text, the line `k`: if that is a heading of
/// the first level, the title is the text of the heading, and else there is none. The title of a
/// note without text is `fallback` too.
pub proof fn law_title(content: Seq<char>, fallback: Seq<char>, k: int)
    requires
        0 <= k <= text::split_on(content, '\n').len(),
        forall|j: int|
            0 <= j < k ==> text::trim(#[trigger] text::split_on(content, '\n')[j]).len() == 0,
    ensures
        ({
            let lines = text::split_on(content, '\n');
            let line = text::trim(lines[k]);
            let heading = text::trim(line.skip(2));
            let title = note_meta::title_of(content, fallback);
            &&& k == lines.len() ==> title == fallback
            &&& k < lines.len() && line.len() >= 2 && line[0] == '#' && line[1] == ' '
                && heading.len() > 0 ==> title == heading
            &&& k < lines.len() && line.len() > 0 && (line.len() < 2 || line[0] != '#' || line[1]
                != ' ' || heading.len() == 0) ==> title == fallback
        }),
{
    reveal_strlit("# ");
    let lines = text::split_on(content, '\n');
    lemma_first_line(lines, 0, k);
    if k < lines.len() {
        let line = text::trim(lines[k]);
        if line.len() >= 2 && line[0] == '#' && line[1] == ' ' {
            assert(line.take(2) =~= "# "@);
        } else if "# "@.is_prefix_of(line) {
            assert(line.take(2)[0] == line[0]);
            assert(line.take(2)[1] == line[1]);
        }
    }
}

/// What is between two slashes of a path counts as a component, unless it is empty or `.`.
pub open spec fn counts(piece: Seq<char>) -> bool {
    piece.len() > 0 && piece != seq!['.']
}

/// Each text between the slashes of a path that counts is one component, in order: `..` is the
/// directory above, and any other text is a name.
pub proof fn law_inner_parts(pieces: Seq<Seq<char>>) -> (places: Seq<int>)
    ensures
        ascending(places, pieces.len() as int),
        forall|i: int|
            0 <= i < pieces.len() ==> (#[trigger] counts(pieces[i]) <==> places.contains(i)),
        vault_path::inner_parts(pieces).len() == places.len(),
        forall|k: int|
            0 <= k < places.len() ==> #[trigger] vault_path::inner_parts(pieces)[k] == if pieces[
                places[k]
            ] == seq!['.', '.'] {
                PartView::Parent
            } else {
                PartView::Name(pieces[places[k]])
            },
    decreases pieces.len(),
{
    if pieces.len() == 0 {
        Seq::empty()
    } else {
        reveal_strlit(".");
        reveal_strlit("..");
        assert("."@ =~= seq!['.']);
        assert(".."@ =~= seq!['.', '.']);
        let front = pieces.drop_last();
        let n = front.len() as int;
        let old = law_inner_parts(front);
        lemma_ascending_push(old, n);
        let places = if counts(pieces[n]) {
            old.push(n)
        } else {
            old
        };
        assert forall|i: int| 0 <= i < pieces.len() implies (#[trigger] counts(pieces[i])
            <==> places.contains(i)) by {
            text::lemma_push_contains(old, n, i);
            if i < n {
                assert(front[i] == pieces[i]);
                assert(counts(front[i]) <==> old.contains(i));
            }
        }
        assert forall|k: int| 0 <= k < places.len() implies #[trigger] vault_path::inner_parts(
            pieces,
        )[k] == if pieces[places[k]] == seq!['.', '.'] {
            PartView::Parent
        } else {
            PartView::Name(pieces[places[k]])
        } by {
            if k < old.len() {
                assert(front[old[k]] == pieces[old[k]]);
                assert(vault_path::inner_parts(front)[k] == vault_path::inner_parts(pieces)[k]);
            }
        }
        places
    }
}

/// The components of a path are those between its slashes, behind the root, if the path begins with
/// a slash, and behind the directory itself, if it is `.` or begins with `./`.
pub proof fn law_slash_parts(path: Seq<char>)
    ensures
        ({
            let inner = vault_path::inner_parts(text::split_on(path, '/'));
            let here = path == seq!['.'] || (path.len() >= 2 && path[0] == '.' && path[1] == '/');
            &&& path.len() > 0 && path[0] == '/' ==> vault_path::slash_parts(path) == seq![
                PartView::Root,
            ] + inner
            &&& here ==> vault_path::slash_parts(path) == seq![PartView::Current] + inner
            &&& (path.len() == 0 || path[0] != '/') && !here ==> vault_path::slash_parts(path)
                == inner
        }),
{
    reveal_strlit(".");
    assert("."@ =~= seq!['.']);
    let pieces = text::split_on(path, '/');
    text::lemma_split_nonempty(path, '/');
    let i = text::first_at(path, '/');
    text_laws::law_first_at(path, '/');
    if i < path.len() {
        let head = path.take(i);
        let tail = path.skip(i + 1);
        assert(path =~= head + seq!['/'] + tail);
        text::lemma_split_concat(head, tail, '/');
        assert(!head.contains('/'));
        text::lemma_split_whole(head, '/');
        assert(pieces[0] == head);
    } else {
        assert(!path.contains('/'));
        text::lemma_split_whole(path, '/');
        assert(pieces[0] == path);
    }
    let here = path == seq!['.'] || (path.len() >= 2 && path[0] == '.' && path[1] == '/');
    if here {
        assert(pieces[0] =~= seq!['.']);
    } else if pieces[0] == seq!['.'] {
        assert(seq!['.'].len() == 1);
        assert(pieces[0][0] == path[0]);
        if path.len() == 1 {
            assert(path =~= seq!['.']);
        }
    }
    let inner = vault_path::inner_parts(pieces);
    assert(Seq::<PartView>::empty() + inner =~= inner);
}

/// A path leads to a place below the vault root just if it is not absolute and all its components
/// are names; they are then the names on the way, and the last is the name of what it leads to.
pub proof fn law_accepted_path(reading: ReadingView)
    ensures
        ({
            let fault = vault_path::path_fault(reading);
            let named = forall|i: int|
                0 <= i < reading.parts.len() ==> (#[trigger] reading.parts[i]) is Name;
            &&& reading.absolute ==> fault == Some("note path must be relative"@)
            &&& !reading.absolute && !named ==> fault == Some(
                "note path contains invalid segments"@,
            )
            &&& !reading.absolute && named ==> fault is None
            &&& fault is None ==> vault_path::names(reading).len() == reading.parts.len()
            &&& forall|i: int|
                0 <= i < reading.parts.len() && fault is None ==> reading.parts[i]
                    == PartView::Name(#[trigger] vault_path::names(reading)[i])
            &&& fault is None && reading.parts.len() > 0 ==> vault_path::file_name(reading) == Some(
                vault_path::names(reading).last(),
            )
        }),
{
    if vault_path::path_fault(reading) is None {
        assert forall|i: int| 0 <= i < reading.parts.len() implies reading.parts[i]
            == PartView::Name(#[trigger] vault_path::names(reading)[i]) by {
            assert(reading.parts[i] is Name);
        }
    }
}

/// A path without components, or whose last component is no name, leads to nothing with a name; any
/// other leads to what its last component names.
pub proof fn law_file_name(reading: ReadingView, name: Seq<char>)
    ensures
        vault_path::file_name(reading) == Some(name) <==> reading.parts.len() > 0
            && reading.parts[reading.parts.len() - 1] == PartView::Name(name),
{
}

/// The target of a rename is split just if its path leads to a named place below the vault root:
/// into that name and the names before it.
pub proof fn law_rename_target(r: Result<RenameTarget, String>, reading: ReadingView)
    requires
        vault_lookup::splits(r, reading),
    ensures
        ({
            let fault = vault_path::path_fault(reading);
            let names = vault_path::names(reading);
            match r {
                Ok(target) => {
                    &&& fault is None
                    &&& names.len() == target.parent@.len() + 1
                    &&& target.leaf@ == names[names.len() - 1]
                    &&& forall|i: int|
                        0 <= i < target.parent@.len() ==> (#[trigger] target.parent@[i])@
                            == names[i]
                },
                Err(e) => {
                    &&& fault is Some ==> e@ == fault->0
                    &&& fault is None ==> names.len() == 0 && e@
                        == "note path must include a leaf name"@
                },
            }
        }),
{
    if let Ok(target) = r {
        let parent = text::texts(target.parent@);
        assert forall|i: int| 0 <= i < target.parent@.len() implies (#[trigger] target.parent@[i])@
            == vault_path::names(reading)[i] by {
            assert(parent[i] == target.parent@[i]@);
            assert(parent.push(target.leaf@)[i] == parent[i]);
        }
    }
}

/// The state that a lookup comes to from `state` by the first `n` of `events`.
pub open spec fn run(state: LookupView, events: Seq<LookupEvent>, n: int) -> LookupView
    decreases n,
{
    if n <= 0 {
        state
    } else {
        vault_lookup::next_state(run(state, events, n - 1), events[n - 1])
    }
}

/// Whether `events`, from `from` on, tell that the nearest place that exists is `level` levels up
/// and has the canonical path `at`.
pub open spec fn exists_at(events: Seq<LookupEvent>, from: int, level: int, at: AbsPath) -> bool {
    &&& 0 <= from
    &&& 0 <= level
    &&& from + level + 2 <= events.len()
    &&& forall|i: int| from <= i < from + level ==> #[trigger] events[i] == LookupEvent::Exists(false)
    &&& events[from + level] == LookupEvent::Exists(true)
    &&& events[from + level + 1] == LookupEvent::Canonical(Ok(at))
}

/// Whether `path` is `at` with the last `level` of the names `rel` behind it.
pub open spec fn is_place(
    path: Seq<Seq<u8>>,
    at: Seq<Seq<u8>>,
    rel: Seq<Seq<char>>,
    level: int,
) -> bool {
    &&& path.len() == at.len() + level
    &&& forall|i: int| 0 <= i < at.len() ==> #[trigger] path[i] == at[i]
    &&& forall|i: int|
        0 <= i < level ==> #[trigger] path[at.len() + i] == encode_utf8(rel[rel.len() - level + i])
}

proof fn lemma_probes(
    state: LookupView,
    base: Seq<Seq<u8>>,
    rel: Seq<Seq<char>>,
    events: Seq<LookupEvent>,
    from: int,
    level: int,
)
    requires
        0 <= from,
        0 <= level <= rel.len(),
        from + level <= events.len(),
        run(state, events, from) == (LookupView::Probe { base, rel, up: 0 }),
        forall|i: int| from <= i < from + level ==> #[trigger] events[i] == LookupEvent::Exists(false),
    ensures
        run(state, events, from + level) == (LookupView::Probe { base, rel, up: level }),
    decreases level,
{
    if level > 0 {
        lemma_probes(state, base, rel, events, from, level - 1);
        assert(events[from + level - 1] == LookupEvent::Exists(false));
    }
}

proof fn lemma_found(
    state: LookupView,
    base: Seq<Seq<u8>>,
    rel: Seq<Seq<char>>,
    events: Seq<LookupEvent>,
    from: int,
    level: int,
    at: AbsPath,
)
    requires
        0 <= level <= rel.len(),
        exists_at(events, from, level, at),
        run(state, events, from) == (LookupView::Probe { base, rel, up: 0 }),
    ensures
        match run(state, events, from + level + 2) {
            LookupView::Done(Ok(path)) => base.is_prefix_of(at@) && is_place(path, at@, rel, level),
            LookupView::Done(Err(e)) => !base.is_prefix_of(at@) && e == "note path escapes vault"@,
            _ => false,
        },
{
    lemma_probes(state, base, rel, events, from, level);
    let all = base + Seq::new(rel.len(), |i: int| encode_utf8(rel[i]));
    assert(vault_path::encoded(rel) =~= Seq::new(rel.len(), |i: int| encode_utf8(rel[i])));
    assert(run(state, events, from + level + 1) == (LookupView::Canonical { base, rel, up: level }));
    let last = run(state, events, from + level + 2);
    if base.is_prefix_of(at@) {
        let path = at@ + all.skip(all.len() - level);
        assert(last == LookupView::Done(Ok(path)));
        assert forall|i: int| 0 <= i < level implies #[trigger] path[at@.len() + i] == encode_utf8(
            rel[rel.len() - level + i],
        ) by {
            assert(path[at@.len() + i] == all[all.len() - level + i]);
        }
    }
}

/// The place of a note that is read: the nearest place above it that exists, with the names from
/// there on, if that place lies in the vault, and else an error.
pub proof fn law_note_is_found(
    reading: ReadingView,
    root: AbsPath,
    level: int,
    at: AbsPath,
    events: Seq<LookupEvent>,
)
    requires
        vault_path::path_fault(reading) is None,
        0 <= level <= reading.parts.len(),
        events.len() == level + 3,
        events[0] == LookupEvent::Canonical(Ok(root)),
        exists_at(events, 1, level, at),
    ensures
        match run(vault_lookup::first_state(reading, false), events, level + 3) {
            LookupView::Done(Ok(path)) => root@.is_prefix_of(at@) && is_place(
                path,
                at@,
                vault_path::names(reading),
                level,
            ),
            LookupView::Done(Err(e)) => !root@.is_prefix_of(at@) && e
                == "note path escapes vault"@,
            _ => false,
        },
{
    let state = vault_lookup::first_state(reading, false);
    let rel = vault_path::names(reading);
    assert(run(state, events, 0) == state);
    assert(run(state, events, 1) == (LookupView::Probe { base: root@, rel, up: 0 }));
    lemma_found(state, root@, rel, events, 1, level, at);
}

proof fn lemma_links(
    state: LookupView,
    base: Seq<Seq<u8>>,
    rel: Seq<Seq<char>>,
    events: Seq<LookupEvent>,
    plain: int,
)
    requires
        0 <= plain < rel.len(),
        1 + plain <= events.len(),
        run(state, events, 1) == (LookupView::Link { base, rel, depth: 0 }),
        forall|i: int|
            1 <= i < 1 + plain ==> #[trigger] events[i] == LookupEvent::Link(
                vault_lookup::LinkProbe::Plain,
            ),
    ensures
        run(state, events, 1 + plain) == (LookupView::Link { base, rel, depth: plain }),
    decreases plain,
{
    if plain > 0 {
        lemma_links(state, base, rel, events, plain - 1);
        assert(events[plain] == LookupEvent::Link(vault_lookup::LinkProbe::Plain));
    }
}

/// The place of a note that is written, if the first `plain` names on the way were looked at and are
/// no links: the next name must not be a link, and where it is missing, or where no name is left,
/// the place is found as for a read.
pub proof fn law_note_is_found_for_write(
    reading: ReadingView,
    root: AbsPath,
    plain: int,
    base: AbsPath,
    level: int,
    at: AbsPath,
    events: Seq<LookupEvent>,
)
    requires
        vault_path::path_fault(reading) is None,
        0 <= plain <= reading.parts.len(),
        events[0] == LookupEvent::Canonical(Ok(root)),
        forall|i: int|
            1 <= i < 1 + plain ==> #[trigger] events[i] == LookupEvent::Link(
                vault_lookup::LinkProbe::Plain,
            ),
        events.len() >= plain + 2,
    ensures
        ({
            let state = vault_lookup::first_state(reading, true);
            let rel = vault_path::names(reading);
            let n = if plain < rel.len() {
                plain + 2
            } else {
                plain + 1
            };
            let next = events[plain + 1];
            &&& plain < rel.len() && next == LookupEvent::Link(vault_lookup::LinkProbe::Symlink)
                ==> run(state, events, n) == LookupView::Done(
                Err("note path contains symlink component"@),
            )
            &&& plain < rel.len() ==> (next matches LookupEvent::Link(
                vault_lookup::LinkProbe::Unreadable(e),
            ) ==> run(state, events, n) == LookupView::Done(Err(e@)))
            &&& (plain < rel.len() ==> next == LookupEvent::Link(vault_lookup::LinkProbe::Missing))
                && n < events.len() && events[n] == LookupEvent::Canonical(Ok(base)) && level
                <= rel.len() && exists_at(events, n + 1, level, at) ==> match run(
                state,
                events,
                n + level + 3,
            ) {
                LookupView::Done(Ok(path)) => base@.is_prefix_of(at@) && is_place(
                    path,
                    at@,
                    rel,
                    level,
                ),
                LookupView::Done(Err(e)) => !base@.is_prefix_of(at@) && e
                    == "note path escapes vault"@,
                _ => false,
            }
        }),
{
    let state = vault_lookup::first_state(reading, true);
    let rel = vault_path::names(reading);
    let n = if plain < rel.len() {
        plain + 2
    } else {
        plain + 1
    };
    assert(run(state, events, 0) == state);
    if rel.len() == 0 {
        assert(run(state, events, 1) == (LookupView::Base { base: root@, rel }));
    } else {
        assert(run(state, events, 1) == (LookupView::Link { base: root@, rel, depth: 0 }));
        if plain < rel.len() {
            lemma_links(state, root@, rel, events, plain);
            assert(run(state, events, plain + 2) == vault_lookup::next_state(
                run(state, events, plain + 1),
                events[plain + 1],
            ));
        } else {
            lemma_links(state, root@, rel, events, plain - 1);
            assert(events[plain] == LookupEvent::Link(vault_lookup::LinkProbe::Plain));
            assert(run(state, events, plain + 1) == (LookupView::Base { base: root@, rel }));
        }
    }
    if (plain < rel.len() ==> events[plain + 1] == LookupEvent::Link(
        vault_lookup::LinkProbe::Missing,
    )) && n < events.len() && events[n] == LookupEvent::Canonical(Ok(base)) && level <= rel.len()
        && exists_at(events, n + 1, level, at) {
        assert(run(state, events, n) == (LookupView::Base { base: root@, rel }));
        assert(run(state, events, n + 1) == (LookupView::Probe { base: base@, rel, up: 0 }));
        lemma_found(state, base@, rel, events, n + 1, level, at);
    }
}

/// A path that is refused ends the search before anything is looked at; a canonical path that cannot
/// be found ends it with that error; and what has ended stays as it is.
pub proof fn law_search_ends_with_its_error(
    reading: ReadingView,
    for_write: bool,
    state: LookupView,
    event: LookupEvent,
)
    ensures
        vault_path::path_fault(reading) is Some ==> vault_lookup::first_state(reading, for_write)
            == LookupView::Done(Err(vault_path::path_fault(reading)->0)),
        state is Root || state is Base || state is Canonical ==> (event matches LookupEvent::Canonical(
            Err(e),
        ) ==> vault_lookup::next_state(state, event) == LookupView::Done(Err(e@))),
        state is Done ==> vault_lookup::next_state(state, event) == state,
{
}

/// A search that comes to the top of the file system without finding anything that exists fails.
pub proof fn law_search_ends_at_the_top(base: Seq<Seq<u8>>, rel: Seq<Seq<char>>, up: int)
    requires
        0 <= up <= base.len() + rel.len(),
    ensures
        vault_lookup::next_state(
            LookupView::Probe { base, rel, up },
            LookupEvent::Exists(false),
        ) == if up == base.len() + rel.len() {
            LookupView::Done(Err("note path escapes vault"@))
        } else {
            LookupView::Probe { base, rel, up: up + 1 }
        },
{
}

/// What is held of the components of a path and of the names of an absolute path is what each of
/// them holds, in order; names are kept as their UTF-8 bytes.
pub proof fn law_path_views(
    parts: Seq<PathPart>,
    path: AbsPath,
    names: Seq<Seq<char>>,
    leaf: Option<String>,
    i: int,
)
    ensures
        vault_path::part_views(parts).len() == parts.len(),
        path@.len() == path.names@.len(),
        vault_path::encoded(names).len() == names.len(),
        0 <= i < parts.len() ==> match parts[i] {
            PathPart::Prefix => vault_path::part_views(parts)[i] == PartView::Prefix,
            PathPart::Root => vault_path::part_views(parts)[i] == PartView::Root,
            PathPart::Current => vault_path::part_views(parts)[i] == PartView::Current,
            PathPart::Parent => vault_path::part_views(parts)[i] == PartView::Parent,
            PathPart::Name(name) => vault_path::part_views(parts)[i] == PartView::Name(name@),
        },
        0 <= i < path.names@.len() ==> path@[i] == path.names@[i]@,
        0 <= i < names.len() ==> vault_path::encoded(names)[i] == encode_utf8(names[i]),
        match leaf {
            Some(name) => vault_path::optional_text(leaf) == Some(name@),
            None => vault_path::optional_text(leaf) is None,
        },
{
}

/// All machines read a path alike that holds no backslash and begins neither with a letter and a
/// colon nor with two slashes.
pub proof fn law_portable(path: Seq<char>)
    ensures
        vault_path::portable(path) <==> {
            &&& forall|k: int| 0 <= k < path.len() ==> #[trigger] path[k] != '\\'
            &&& path.len() < 2 || path[1] != ':' || !('A' <= path[0] <= 'Z' || 'a' <= path[0]
                <= 'z')
            &&& path.len() < 2 || path[0] != '/' || path[1] != '/'
        },
{
    reveal_strlit("//");
    if path.contains('\\') {
        let k = choose|k: int| 0 <= k < path.len() && path[k] == '\\';
        assert(path[k] == '\\');
    }
    if path.len() >= 2 {
        assert(path.take(2)[0] == path[0] && path.take(2)[1] == path[1]);
        if path[0] == '/' && path[1] == '/' {
            assert(path.take(2) =~= "//"@);
        }
    }
}

/// Two machines find the same components in a portable path, and neither takes it for absolute if it
/// does not begin with a slash. On any machine a name is not empty and neither `.` nor `..`.
pub proof fn law_machines_agree(path: Seq<char>, a: ReadingView, b: ReadingView, i: int)
    requires
        vault_path::reads(path, a),
        vault_path::reads(path, b),
    ensures
        vault_path::portable(path) ==> a.parts == b.parts && a.parts == vault_path::slash_parts(
            path,
        ),
        vault_path::portable(path) && (path.len() == 0 || path[0] != '/') ==> !a.absolute,
        0 <= i < a.parts.len() ==> (a.parts[i] matches PartView::Name(name) ==> name.len() > 0
            && name != seq!['.'] && name != seq!['.', '.']),
{
    reveal_strlit(".");
    reveal_strlit("..");
    assert("."@ =~= seq!['.']);
    assert(".."@ =~= seq!['.', '.']);
}

/// The search for a path that leads straight down from the vault root begins with its segments, if
/// all machines read it alike.
pub proof fn law_search_begins_with_the_segments(
    state: LookupView,
    path: Seq<char>,
    for_write: bool,
)
    requires
        link_laws::plain_path(path),
        vault_path::portable(path),
        vault_lookup::begins(state, path, for_write),
    ensures
        state == (LookupView::Root { rel: text::split_on(path, '/'), for_write }),
{
    let reading = choose|reading: ReadingView| #[trigger]
        vault_path::reads(path, reading) && state == vault_lookup::first_state(reading, for_write);
    vault_lookup::law_plain_paths_are_accepted(path, reading);
}

/// The name of what a path leads to that leads straight down from the vault root is its last
/// segment, if all machines read it alike; a path that was not given leads to nothing.
pub proof fn law_name_of_a_plain_path(path: Seq<char>, leaf: Option<Seq<char>>)
    requires
        link_laws::plain_path(path),
        vault_path::portable(path),
    ensures
        vault_path::reads_leaf(path, leaf) ==> leaf == Some(text::split_on(path, '/').last()),
        image_asset::reads_optional(Some(path), leaf) ==> leaf == Some(
            text::split_on(path, '/').last(),
        ),
        image_asset::reads_optional(None, leaf) <==> leaf is None,
{
    if vault_path::reads_leaf(path, leaf) {
        let reading = choose|reading: ReadingView| #[trigger]
            vault_path::reads(path, reading) && vault_path::file_name(reading) == leaf;
        vault_lookup::law_plain_paths_are_accepted(path, reading);
        text::lemma_split_nonempty(path, '/');
        law_accepted_path(reading);
    }
}

/// Where all machines read the paths of items alike, and these lead straight down from the vault
/// root, the names of the items are the last segments of their paths.
pub proof fn law_names_of_items(items: Seq<ItemView>, leaves: Seq<Option<Seq<char>>>, i: int)
    requires
        note_moves::leaves_read(items, leaves),
    ensures
        leaves.len() == items.len(),
        0 <= i < items.len() && link_laws::plain_path(items[i].path) && vault_path::portable(
            items[i].path,
        ) ==> leaves[i] == Some(text::split_on(items[i].path, '/').last()),
{
    if 0 <= i < items.len() && link_laws::plain_path(items[i].path) && vault_path::portable(
        items[i].path,
    ) {
        assert(vault_path::reads_leaf(items[i].path, leaves[i]));
        law_name_of_a_plain_path(items[i].path, leaves[i]);
    }
}

} // verus!
