use crate::link_laws;
use crate::link_laws::plain_segment;
use crate::link_path;
use crate::text;
use crate::text_laws;
use vstd::prelude::*;

verus! {

/// The directory of a path is what stands before its last slash; a path without one lies in the
/// vault root.
pub proof fn law_parent(head: Seq<char>, leaf: Seq<char>)
    requires
        !leaf.contains('/'),
    ensures
        link_path::parent_of(leaf) == Seq::<char>::empty(),
        link_path::parent_of(head + seq!['/'] + leaf) == head,
{
    text_laws::law_last_at(leaf, '/');
    let i = text::last_at(leaf, '/');
    if i >= 0 {
        assert(leaf[i] == '/');
    }
    text_laws::lemma_last_at_behind(head, '/', leaf);
    assert((head + seq!['/'] + leaf).take(head.len() as int) =~= head);
}

/// A path ends in `.md`, in any case, just if its last three characters say so.
pub proof fn law_md_extension(value: Seq<char>)
    ensures
        link_path::has_md_extension(value) <==> {
            let n = value.len() as int;
            &&& n >= 3
            &&& value[n - 3] == '.'
            &&& value[n - 2] == 'm' || value[n - 2] == 'M'
            &&& value[n - 1] == 'd' || value[n - 1] == 'D'
        },
{
    link_laws::lemma_slash();
    let low = text::ascii_lower(value);
    let n = value.len() as int;
    if n >= 3 {
        let tail = low.skip(n - 3);
        assert(tail[0] == text::lower(value[n - 3]));
        assert(tail[1] == text::lower(value[n - 2]));
        assert(tail[2] == text::lower(value[n - 1]));
        if tail[0] == '.' && tail[1] == 'm' && tail[2] == 'd' {
            assert(tail =~= ".md"@);
        }
        if tail == ".md"@ {
            assert(tail[0] == ".md"@[0] && tail[1] == ".md"@[1] && tail[2] == ".md"@[2]);
        }
    }
}

/// `.md` is put behind a path that does not end so, and nothing else is done; taken off again, the
/// path is what it was.
pub proof fn law_md_is_added_and_taken_off(value: Seq<char>)
    ensures
        link_path::has_md_extension(value) ==> link_path::with_md_extension(value) == value,
        !link_path::has_md_extension(value) ==> link_path::with_md_extension(value) == value
            + ".md"@,
        link_path::has_md_extension(link_path::with_md_extension(value)),
        link_path::has_md_extension(value) ==> link_path::without_md(value) == value.take(
            value.len() - 3,
        ),
        !link_path::has_md_extension(value) ==> link_path::without_md(value) == value
            && link_path::without_md(link_path::with_md_extension(value)) == value,
{
    link_laws::lemma_slash();
    law_md_extension(value);
    law_md_extension(value + ".md"@);
    assert((value + ".md"@).take(value.len() as int) =~= value);
}

/// A target is written relative to its note just if it begins with `./` or `../`.
pub proof fn law_note_relative(target: Seq<char>)
    ensures
        link_path::note_relative(target) <==> (target.len() >= 2 && target[0] == '.' && target[1]
            == '/') || (target.len() >= 3 && target[0] == '.' && target[1] == '.' && target[2]
            == '/'),
{
    link_laws::lemma_slash();
    if "./"@.is_prefix_of(target) {
        assert(target.take(2)[0] == target[0]);
        assert(target.take(2)[1] == target[1]);
    }
    if "../"@.is_prefix_of(target) {
        assert(target.take(3)[0] == target[0]);
        assert(target.take(3)[1] == target[1]);
        assert(target.take(3)[2] == target[2]);
    }
    if target.len() >= 2 && target[0] == '.' && target[1] == '/' {
        assert(target.take(2) =~= "./"@);
    }
    if target.len() >= 3 && target[0] == '.' && target[1] == '.' && target[2] == '/' {
        assert(target.take(3) =~= "../"@);
    }
}

/// Leading slashes are taken off a target, all of them and nothing else.
pub proof fn law_leading_slashes(s: Seq<char>) -> (k: int)
    ensures
        0 <= k <= s.len(),
        link_path::without_leading_slashes(s) == s.skip(k),
        forall|i: int| 0 <= i < k ==> #[trigger] s[i] == '/',
        k < s.len() ==> s[k] != '/',
    decreases s.len(),
{
    if s.len() > 0 && s[0] == '/' {
        let k = law_leading_slashes(s.skip(1));
        assert(s.skip(k + 1) =~= s.skip(1).skip(k));
        assert forall|i: int| 0 <= i < k + 1 implies #[trigger] s[i] == '/' by {
            if i > 0 {
                assert(s.skip(1)[i - 1] == s[i]);
            }
        }
        k + 1
    } else {
        assert(s.skip(0) =~= s);
        0
    }
}

proof fn lemma_walk_one(at: Seq<Seq<char>>, part: Seq<char>)
    ensures
        link_path::walk(at, seq![part]) == link_path::step(at, part),
{
    reveal_with_fuel(link_path::walk, 2);
    assert(seq![part].drop_last() =~= Seq::<Seq<char>>::empty());
}

proof fn lemma_walk_first(at: Seq<Seq<char>>, seg: Seq<char>, rest: Seq<char>)
    requires
        !seg.contains('/'),
    ensures
        link_path::walk(at, text::split_on(seg + seq!['/'] + rest, '/')) == match link_path::step(
            at,
            seg,
        ) {
            Some(here) => link_path::walk(here, text::split_on(rest, '/')),
            None => None,
        },
{
    text::lemma_split_concat(seg, rest, '/');
    text::lemma_split_whole(seg, '/');
    lemma_walk_one(at, seg);
    link_laws::lemma_walk_concat(at, seq![seg], text::split_on(rest, '/'));
}

/// A target is followed segment by segment: `.` and empty segments lead nowhere, `..` leads nowhere
/// from the vault root and to the vault root from a directory in it, and a name leads to the
/// directory of that name.
pub proof fn law_first_segment(dir: Seq<char>, seg: Seq<char>, rest: Seq<char>)
    requires
        !seg.contains('/'),
    ensures
        ({
            let here = link_path::resolved_path(dir, seg + seq!['/'] + rest);
            &&& seg == seq!['.'] || seg.len() == 0 ==> here == link_path::resolved_path(dir, rest)
            &&& seg == seq!['.', '.'] && dir.len() == 0 ==> here is None
            &&& seg == seq!['.', '.'] && dir.len() > 0 && !dir.contains('/') ==> here
                == link_path::resolved_path(Seq::empty(), rest)
            &&& plain_segment(seg) && dir.len() == 0 ==> here == link_path::resolved_path(seg, rest)
            &&& plain_segment(seg) && dir.len() > 0 ==> here == link_path::resolved_path(
                dir + seq!['/'] + seg,
                rest,
            )
        }),
{
    link_laws::lemma_slash();
    let at = link_path::dir_segments(dir);
    lemma_walk_first(at, seg, rest);
    text::lemma_split_whole(seg, '/');
    assert("."@.len() == 1 && ".."@.len() == 2);
    if dir.len() > 0 && !dir.contains('/') {
        text::lemma_split_whole(dir, '/');
        assert(at.drop_last() =~= Seq::<Seq<char>>::empty());
    }
    if plain_segment(seg) {
        if dir.len() == 0 {
            assert(at.push(seg) =~= seq![seg]);
        } else {
            text::lemma_split_concat(dir, seg, '/');
            assert(at.push(seg) =~= at + seq![seg]);
        }
    }
}

/// `..` leads from a directory to the one that it lies in.
pub proof fn law_climbing_segment(dir: Seq<char>, name: Seq<char>, rest: Seq<char>)
    requires
        dir.len() > 0,
        !name.contains('/'),
    ensures
        link_path::resolved_path(dir + seq!['/'] + name, seq!['.', '.', '/'] + rest)
            == link_path::resolved_path(dir, rest),
{
    link_laws::lemma_slash();
    let at = link_path::dir_segments(dir + seq!['/'] + name);
    let up = seq!['.', '.'];
    assert(seq!['.', '.', '/'] + rest =~= up + seq!['/'] + rest);
    lemma_walk_first(at, up, rest);
    text::lemma_split_concat(dir, name, '/');
    text::lemma_split_whole(name, '/');
    assert("."@.len() == 1 && ".."@.len() == 2);
    assert(at.drop_last() =~= text::split_on(dir, '/'));
}

/// Where the last segment of a target leads: a name to what has that name in the directory, `.` and
/// an empty segment to the directory itself, and `..` to the one that it lies in. The vault root is
/// nothing that a target can name.
pub proof fn law_last_segment(dir: Seq<char>, seg: Seq<char>)
    requires
        !seg.contains('/'),
    ensures
        plain_segment(seg) && dir.len() == 0 ==> link_path::resolved_path(dir, seg) == Some(seg),
        plain_segment(seg) && dir.len() > 0 ==> link_path::resolved_path(dir, seg) == Some(
            dir + seq!['/'] + seg,
        ),
        (seg == seq!['.'] || seg.len() == 0) && dir.len() == 0 ==> link_path::resolved_path(
            dir,
            seg,
        ) is None,
        (seg == seq!['.'] || seg.len() == 0) && dir.len() > 0 ==> link_path::resolved_path(dir, seg)
            == Some(dir),
        seg == seq!['.', '.'] ==> link_path::resolved_path(dir, seg) == (
        if link_path::parent_of(dir).len() == 0 {
            None
        } else {
            Some(link_path::parent_of(dir))
        }),
{
    link_laws::lemma_slash();
    let at = link_path::dir_segments(dir);
    let slash = seq!['/'];
    text::lemma_split_whole(seg, '/');
    lemma_walk_one(at, seg);
    assert("."@.len() == 1 && ".."@.len() == 2);
    text::law_join_split(dir, '/');
    text::lemma_split_parts(dir, '/');
    if plain_segment(seg) {
        assert(at.push(seg) =~= at + seq![seg]);
        if dir.len() == 0 {
            assert(at.push(seg) =~= seq![seg]);
        } else {
            text_laws::law_join_concat(at, seq![seg], slash);
        }
    }
    if seg == seq!['.', '.'] {
        text_laws::law_last_at(dir, '/');
        let i = text::last_at(dir, '/');
        if dir.len() == 0 {
        } else if i < 0 {
            assert(!dir.contains('/'));
            text::lemma_split_whole(dir, '/');
            assert(at.drop_last() =~= Seq::<Seq<char>>::empty());
        } else {
            let head = dir.take(i);
            let tail = dir.skip(i + 1);
            assert(dir =~= head + slash + tail);
            assert(!tail.contains('/')) by {
                if tail.contains('/') {
                    let k = choose|k: int| 0 <= k < tail.len() && tail[k] == '/';
                    assert(dir[i + 1 + k] == '/');
                }
            }
            text::lemma_split_concat(head, tail, '/');
            text::lemma_split_whole(tail, '/');
            assert(at.drop_last() =~= text::split_on(head, '/'));
            text::law_join_split(head, '/');
        }
    }
}

/// A target that is not written relative to its note names the same note wherever it is written,
/// whether or not it begins with a slash.
pub proof fn law_vault_target(source: Seq<char>, other: Seq<char>, target: Seq<char>)
    requires
        !link_path::note_relative(target),
    ensures
        link_path::wiki_target(source, target) == link_path::wiki_target(other, target),
        link_path::wiki_target(source, seq!['/'] + target) == link_path::wiki_target(other, target),
        target.len() > 0 && target[0] != '/' && link_path::has_md_extension(target)
            ==> link_path::wiki_target(source, target) == link_path::resolved_path(
            Seq::empty(),
            target,
        ),
{
    let slashed = seq!['/'] + target;
    law_note_relative(slashed);
    assert(slashed.skip(1) =~= target);
}

/// A target that is written relative to its note is followed from the directory of that note.
pub proof fn law_relative_target(source: Seq<char>, target: Seq<char>)
    requires
        link_path::note_relative(target),
    ensures
        link_path::has_md_extension(target) ==> link_path::wiki_target(source, target)
            == link_path::resolved_path(link_path::parent_of(source), target),
        !link_path::has_md_extension(target) ==> link_path::wiki_target(source, target)
            == link_path::resolved_path(link_path::parent_of(source), target + ".md"@),
{
    law_note_relative(target);
}

/// `.md` is understood at the end of a target, and a target of slashes alone names nothing.
pub proof fn law_md_is_understood(source: Seq<char>, target: Seq<char>)
    ensures
        (exists|i: int| 0 <= i < target.len() && #[trigger] target[i] != '/')
            && !link_path::has_md_extension(target) ==> link_path::wiki_target(source, target)
            == link_path::wiki_target(source, target + ".md"@),
        (forall|i: int| 0 <= i < target.len() ==> #[trigger] target[i] == '/')
            ==> link_path::wiki_target(source, target) is None,
{
    link_laws::lemma_slash();
    let k = law_leading_slashes(target);
    let full = target + ".md"@;
    let m = law_leading_slashes(full);
    law_note_relative(target);
    law_note_relative(full);
    if exists|i: int| 0 <= i < target.len() && #[trigger] target[i] != '/' {
        let i = choose|i: int| 0 <= i < target.len() && #[trigger] target[i] != '/';
        assert(k < target.len());
        assert(full[k] == target[k]);
        if m < k {
            assert(full[m] == target[m]);
        }
        assert(m == k);
        assert(full.skip(k) =~= target.skip(k) + ".md"@);
        law_md_extension(target);
        law_md_extension(target.skip(k));
        law_md_extension(full.skip(k));
        let cut = target.skip(k);
        if link_path::has_md_extension(cut) {
            let n = target.len() as int;
            let c = cut.len() as int;
            assert(cut[c - 3] == target[n - 3]);
            assert(cut[c - 2] == target[n - 2]);
            assert(cut[c - 1] == target[n - 1]);
        }
    }
    if forall|i: int| 0 <= i < target.len() ==> #[trigger] target[i] == '/' {
        assert(k == target.len());
    }
}

proof fn lemma_common_is(a: Seq<Seq<char>>, b: Seq<Seq<char>>, n: int)
    requires
        0 <= n <= a.len(),
        n <= b.len(),
        a.take(n) == b.take(n),
        n == a.len() || n == b.len() || a[n] != b[n],
    ensures
        link_path::common_segments(a, b) == n,
    decreases n,
{
    if n > 0 {
        assert(a[0] == a.take(n)[0]);
        assert(b[0] == b.take(n)[0]);
        assert(a.skip(1).take(n - 1) =~= a.take(n).skip(1));
        assert(b.skip(1).take(n - 1) =~= b.take(n).skip(1));
        lemma_common_is(a.skip(1), b.skip(1), n - 1);
    }
}

/// The way from a directory to a path: a bare name for what lies in the directory, `./` before what
/// lies deeper, and else one `..` for each segment of the directory that the path does not share.
pub proof fn law_relative_path(from_dir: Seq<char>, to_path: Seq<char>, n: int)
    requires
        ({
            let from = if from_dir.len() == 0 {
                Seq::empty()
            } else {
                text::split_on(from_dir, '/')
            };
            let to = text::split_on(to_path, '/');
            &&& 0 <= n <= from.len()
            &&& n <= to.len()
            &&& from.take(n) == to.take(n)
            &&& n == from.len() || n == to.len() || from[n] != to[n]
        }),
    ensures
        ({
            let from = if from_dir.len() == 0 {
                Seq::empty()
            } else {
                text::split_on(from_dir, '/')
            };
            let to = text::split_on(to_path, '/');
            let rest = to.skip(n);
            let way = link_path::relative_path(from_dir, to_path);
            if from.len() == n && rest.len() == 1 {
                way == rest[0]
            } else if from.len() == n {
                way == "./"@ + text::join_with(rest, "/"@)
            } else {
                way == text::join_with(
                    Seq::new((from.len() - n) as nat, |i: int| ".."@) + rest,
                    "/"@,
                )
            }
        }),
{
    let from = link_path::dir_segments(from_dir);
    let to = text::split_on(to_path, '/');
    lemma_common_is(from, to, n);
    assert(link_path::ups(from.len() - n) =~= Seq::new((from.len() - n) as nat, |i: int| ".."@));
}

/// A link that is to be written relative to its note gets a `./` where the way is a bare name.
pub proof fn law_note_relative_path(from_dir: Seq<char>, to_path: Seq<char>)
    ensures
        ({
            let way = link_path::relative_path(from_dir, to_path);
            link_path::note_relative_path(from_dir, to_path) == if way.contains('/') {
                way
            } else {
                "./"@ + way
            }
        }),
{
    let way = link_path::relative_path(from_dir, to_path);
    law_note_relative(way);
    if link_path::note_relative(way) {
        if way[1] == '/' {
            assert(way.contains('/'));
        } else {
            assert(way[2] == '/');
        }
    }
}

/// How links are written: a wiki link by the path of its note without `.md`, a Markdown link by the
/// whole path, each from the vault root, or the way from the directory of the note that holds it.
pub proof fn law_written_links(source: Seq<char>, note: Seq<char>)
    ensures
        link_path::wiki_text(source, note, false) == link_path::without_md(note),
        link_path::parent_of(source).len() == 0 ==> link_path::wiki_text(source, note, true)
            == link_path::without_md(note) && link_path::markdown_href(source, note) == note,
        link_path::parent_of(source).len() > 0 ==> link_path::wiki_text(source, note, true)
            == link_path::note_relative_path(
            link_path::parent_of(source),
            link_path::without_md(note),
        ) && link_path::markdown_href(source, note) == link_path::relative_path(
            link_path::parent_of(source),
            note,
        ),
{
}

} // verus!
