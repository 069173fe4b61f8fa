use crate::link_path;
use crate::text;
use vstd::prelude::*;

verus! {

/// A path segment that names something: not empty, not `.`, not `..`, and without a slash.
pub open spec fn plain_segment(segment: Seq<char>) -> bool {
    segment.len() > 0 && segment != "."@ && segment != ".."@ && !segment.contains('/')
}

/// Whether all of `segments` name something.
pub open spec fn plain_segments(segments: Seq<Seq<char>>) -> bool {
    forall|i: int| 0 <= i < segments.len() ==> plain_segment(#[trigger] segments[i])
}

/// A path that leads straight down from the vault root: each of its segments names something.
pub open spec fn plain_path(path: Seq<char>) -> bool {
    plain_segments(text::split_on(path, '/'))
}

/// A directory that leads straight down from the vault root, or the vault root itself.
pub open spec fn plain_dir(dir: Seq<char>) -> bool {
    dir.len() == 0 || plain_path(dir)
}

/// What the literals that paths are made of hold.
pub proof fn lemma_slash()
    ensures
        "/"@ == seq!['/'],
        "."@ == seq!['.'],
        ".."@ == seq!['.', '.'],
        "./"@ == seq!['.', '/'],
        "../"@ == seq!['.', '.', '/'],
        ".md"@ == seq!['.', 'm', 'd'],
{
    reveal_strlit("/");
    reveal_strlit(".");
    reveal_strlit("..");
    reveal_strlit("./");
    reveal_strlit("../");
    reveal_strlit(".md");
    assert("/"@ =~= seq!['/']);
    assert("."@ =~= seq!['.']);
    assert(".."@ =~= seq!['.', '.']);
    assert("./"@ =~= seq!['.', '/']);
    assert("../"@ =~= seq!['.', '.', '/']);
    assert(".md"@ =~= seq!['.', 'm', 'd']);
}

proof fn lemma_dir_plain(dir: Seq<char>)
    requires
        plain_dir(dir),
    ensures
        plain_segments(link_path::dir_segments(dir)),
{
}

/// A walk from a plain directory along parts without slashes stays among plain directories.
proof fn lemma_walk_plain(at: Seq<Seq<char>>, parts: Seq<Seq<char>>)
    requires
        plain_segments(at),
        forall|i: int| 0 <= i < parts.len() ==> !(#[trigger] parts[i]).contains('/'),
    ensures
        match link_path::walk(at, parts) {
            Some(here) => plain_segments(here),
            None => true,
        },
    decreases parts.len(),
{
    if parts.len() > 0 {
        let front = parts.drop_last();
        assert forall|i: int| 0 <= i < front.len() implies !(#[trigger] front[i]).contains('/') by {
            assert(front[i] == parts[i]);
        }
        lemma_walk_plain(at, front);
        if let Some(here) = link_path::walk(at, front) {
            let part = parts.last();
            assert(part == parts[parts.len() - 1]);
            if let Some(next) = link_path::step(here, part) {
                assert forall|i: int| 0 <= i < next.len() implies plain_segment(
                    #[trigger] next[i],
                ) by {
                    if i < here.len() {
                        assert(next[i] == here[i]);
                    }
                }
            }
        }
    }
}

proof fn lemma_plain_join(segments: Seq<Seq<char>>)
    requires
        segments.len() > 0,
        plain_segments(segments),
    ensures
        text::join_with(segments, "/"@).len() > 0,
        text::split_on(text::join_with(segments, "/"@), '/') == segments,
{
    lemma_slash();
    assert forall|i: int| 0 <= i < segments.len() implies !(#[trigger] segments[i]).contains(
        '/',
    ) by {
        assert(plain_segment(segments[i]));
    }
    text::law_split_join(segments, '/');
    let joined = text::join_with(segments, "/"@);
    if joined.len() == 0 {
        assert(joined =~= Seq::<char>::empty());
        assert(text::split_on(joined, '/') =~= seq![Seq::<char>::empty()]);
        assert(plain_segment(segments[0]));
    }
}

/// What a link in a plain directory resolves to is a plain path: it neither leaves the vault nor
/// holds a `.`, a `..` or an empty segment.
pub proof fn law_resolved_path_stays_in_vault(source_dir: Seq<char>, target: Seq<char>)
    requires
        plain_dir(source_dir),
    ensures
        match link_path::resolved_path(source_dir, target) {
            Some(path) => plain_path(path),
            None => true,
        },
{
    let parts = text::split_on(target, '/');
    text::lemma_split_parts(target, '/');
    lemma_dir_plain(source_dir);
    lemma_walk_plain(link_path::dir_segments(source_dir), parts);
    if let Some(here) = link_path::walk(link_path::dir_segments(source_dir), parts) {
        if here.len() > 0 {
            lemma_plain_join(here);
        }
    }
}

/// What a link target of a note in a plain directory names, if it names anything, is a plain path.
pub proof fn law_wiki_target_stays_in_vault(source_path: Seq<char>, raw_target: Seq<char>)
    requires
        plain_dir(link_path::parent_of(source_path)),
    ensures
        match link_path::wiki_target(source_path, raw_target) {
            Some(path) => plain_path(path),
            None => true,
        },
{
    let base = if link_path::note_relative(raw_target) {
        link_path::parent_of(source_path)
    } else {
        Seq::empty()
    };
    law_resolved_path_stays_in_vault(
        base,
        link_path::with_md_extension(link_path::without_leading_slashes(raw_target)),
    );
}

/// Parts that name something lead straight down.
pub proof fn lemma_walk_down(at: Seq<Seq<char>>, parts: Seq<Seq<char>>)
    requires
        plain_segments(parts),
    ensures
        link_path::walk(at, parts) == Some(at + parts),
    decreases parts.len(),
{
    if parts.len() == 0 {
        assert(at + parts =~= at);
    } else {
        let front = parts.drop_last();
        assert forall|i: int| 0 <= i < front.len() implies plain_segment(#[trigger] front[i]) by {
            assert(front[i] == parts[i]);
        }
        lemma_walk_down(at, front);
        assert(plain_segment(parts[parts.len() - 1]));
        assert((at + front).push(parts.last()) =~= at + parts);
    }
}

/// A walk along two runs of parts is the walk along the second from where the first leads.
pub proof fn lemma_walk_concat(at: Seq<Seq<char>>, a: Seq<Seq<char>>, b: Seq<Seq<char>>)
    ensures
        link_path::walk(at, a + b) == match link_path::walk(at, a) {
            Some(here) => link_path::walk(here, b),
            None => None,
        },
    decreases b.len(),
{
    if b.len() == 0 {
        assert(a + b =~= a);
    } else {
        assert((a + b).drop_last() =~= a + b.drop_last());
        assert((a + b).last() == b.last());
        lemma_walk_concat(at, a, b.drop_last());
    }
}

proof fn lemma_walk_up(at: Seq<Seq<char>>, n: int)
    requires
        0 <= n <= at.len(),
    ensures
        link_path::walk(at, link_path::ups(n)) == Some(at.take(at.len() - n)),
    decreases n,
{
    lemma_slash();
    if n == 0 {
        assert(at.take(at.len() as int) =~= at);
    } else {
        assert(link_path::ups(n).drop_last() =~= link_path::ups(n - 1));
        assert(link_path::ups(n).last() == ".."@);
        lemma_walk_up(at, n - 1);
        assert(at.take(at.len() - (n - 1)).drop_last() =~= at.take(at.len() - n));
        assert(".."@ != "."@) by {
            assert(".."@.len() != "."@.len());
        }
    }
}

proof fn lemma_common(a: Seq<Seq<char>>, b: Seq<Seq<char>>)
    ensures
        link_path::common_segments(a, b) <= a.len(),
        link_path::common_segments(a, b) <= b.len(),
        a.take(link_path::common_segments(a, b) as int) == b.take(
            link_path::common_segments(a, b) as int,
        ),
    decreases a.len(),
{
    let n = link_path::common_segments(a, b) as int;
    if a.len() > 0 && b.len() > 0 && a[0] == b[0] {
        lemma_common(a.skip(1), b.skip(1));
        assert(a.take(n) =~= seq![a[0]] + a.skip(1).take(n - 1));
        assert(b.take(n) =~= seq![b[0]] + b.skip(1).take(n - 1));
    } else {
        assert(a.take(0) =~= b.take(0));
    }
}

proof fn lemma_ups_no_slash(n: int, rest: Seq<Seq<char>>)
    requires
        forall|i: int| 0 <= i < rest.len() ==> !(#[trigger] rest[i]).contains('/'),
    ensures
        forall|i: int|
            0 <= i < (link_path::ups(n) + rest).len() ==> !(#[trigger] (link_path::ups(n)
                + rest)[i]).contains('/'),
{
    lemma_slash();
    let all = link_path::ups(n) + rest;
    assert forall|i: int| 0 <= i < all.len() implies !(#[trigger] all[i]).contains('/') by {
        if i < link_path::ups(n).len() {
            assert(all[i] == ".."@);
        } else {
            assert(all[i] == rest[i - link_path::ups(n).len()]);
        }
    }
}

/// Splitting a relative path gives the steps up, or one `.`, and then the rest of the way down.
proof fn lemma_relative_parts(from_dir: Seq<char>, to_path: Seq<char>)
    ensures
        ({
            let from = link_path::dir_segments(from_dir);
            let to = text::split_on(to_path, '/');
            let common = link_path::common_segments(from, to) as int;
            let rest = to.skip(common);
            let parts = text::split_on(link_path::relative_path(from_dir, to_path), '/');
            &&& common <= from.len()
            &&& common <= to.len()
            &&& from.take(common) == to.take(common)
            &&& if from.len() == common && rest.len() == 1 {
                parts == rest
            } else if from.len() == common && rest.len() == 0 {
                parts == seq!["."@, Seq::<char>::empty()]
            } else if from.len() == common {
                parts == seq!["."@] + rest
            } else {
                parts == link_path::ups(from.len() - common) + rest
            }
        }),
{
    let from = link_path::dir_segments(from_dir);
    let to = text::split_on(to_path, '/');
    let common = link_path::common_segments(from, to) as int;
    let rest = to.skip(common);
    let path = link_path::relative_path(from_dir, to_path);
    lemma_slash();
    lemma_common(from, to);
    text::lemma_split_parts(to_path, '/');
    assert forall|i: int| 0 <= i < rest.len() implies !(#[trigger] rest[i]).contains('/') by {
        assert(rest[i] == to[i + common]);
    }
    if from.len() == common && rest.len() == 1 {
        assert(!rest[0].contains('/'));
        text::lemma_split_whole(rest[0], '/');
        assert(rest =~= seq![rest[0]]);
    } else if from.len() == common {
        let joined = text::join_with(rest, "/"@);
        assert(path =~= seq!['.'] + seq!['/'] + joined);
        text::lemma_split_concat(seq!['.'], joined, '/');
        assert(!seq!['.'].contains('/'));
        text::lemma_split_whole(seq!['.'], '/');
        if rest.len() > 0 {
            text::law_split_join(rest, '/');
        } else {
            assert(joined =~= Seq::<char>::empty());
            assert(text::split_on(path, '/') =~= seq!["."@, Seq::<char>::empty()]);
        }
    } else {
        let all = link_path::ups(from.len() - common) + rest;
        lemma_ups_no_slash(from.len() - common, rest);
        text::law_split_join(all, '/');
    }
}

/// Following the relative path from a directory to a path leads to that path.
pub proof fn law_relative_path_leads_back(from_dir: Seq<char>, to_path: Seq<char>)
    requires
        plain_dir(from_dir),
        plain_path(to_path),
    ensures
        link_path::resolved_path(from_dir, link_path::relative_path(from_dir, to_path)) == Some(
            to_path,
        ),
{
    let from = link_path::dir_segments(from_dir);
    let to = text::split_on(to_path, '/');
    let common = link_path::common_segments(from, to) as int;
    let rest = to.skip(common);
    let parts = text::split_on(link_path::relative_path(from_dir, to_path), '/');
    lemma_slash();
    lemma_relative_parts(from_dir, to_path);
    assert forall|i: int| 0 <= i < rest.len() implies plain_segment(#[trigger] rest[i]) by {
        assert(rest[i] == to[i + common]);
    }
    assert(to =~= to.take(common) + rest);
    if from.len() == common && rest.len() == 1 {
        assert(from =~= from.take(common));
        lemma_walk_down(from, rest);
    } else if from.len() == common {
        assert(from =~= from.take(common));
        let dot = seq!["."@];
        assert(dot.drop_last() =~= Seq::<Seq<char>>::empty());
        assert(link_path::walk(from, dot) == Some(from)) by {
            reveal_with_fuel(link_path::walk, 2);
        }
        if rest.len() == 0 {
            assert(parts.drop_last() =~= dot);
            assert(link_path::walk(from, parts) == Some(from));
            assert(rest =~= Seq::<Seq<char>>::empty());
            assert(to =~= from);
        } else {
            lemma_walk_concat(from, dot, rest);
            lemma_walk_down(from, rest);
        }
    } else {
        let n = from.len() - common;
        lemma_walk_concat(from, link_path::ups(n), rest);
        lemma_walk_up(from, n);
        lemma_walk_down(from.take(common), rest);
    }
    assert(link_path::walk(from, parts) == Some(to));
    text::law_join_split(to_path, '/');
    text::lemma_split_nonempty(to_path, '/');
    lemma_plain_join(to);
}

/// How many of `parts` lead one directory up.
pub open spec fn climbs(parts: Seq<Seq<char>>) -> nat
    decreases parts.len(),
{
    if parts.len() == 0 {
        0
    } else if parts.last() == ".."@ {
        climbs(parts.drop_last()) + 1
    } else {
        climbs(parts.drop_last())
    }
}

/// A walk leaves all but as many of the first segments as it climbs.
proof fn lemma_walk_keeps(at: Seq<Seq<char>>, parts: Seq<Seq<char>>, here: Seq<Seq<char>>)
    requires
        link_path::walk(at, parts) == Some(here),
    ensures
        at.len() - climbs(parts) <= here.len(),
        forall|i: int| 0 <= i < at.len() - climbs(parts) ==> #[trigger] here[i] == at[i],
    decreases parts.len(),
{
    lemma_slash();
    if parts.len() > 0 {
        let before = link_path::walk(at, parts.drop_last())->0;
        lemma_walk_keeps(at, parts.drop_last(), before);
        assert(link_path::step(before, parts.last()) == Some(here));
        assert forall|i: int| 0 <= i < at.len() - climbs(parts) implies #[trigger] here[i]
            == at[i] by {
            assert(before[i] == at[i]);
        }
    }
}

proof fn lemma_common_at_least(a: Seq<Seq<char>>, b: Seq<Seq<char>>, n: int)
    requires
        n <= a.len(),
        n <= b.len(),
        forall|i: int| 0 <= i < n ==> #[trigger] b[i] == a[i],
    ensures
        n <= link_path::common_segments(a, b),
    decreases a.len(),
{
    if n > 0 {
        assert(b[0] == a[0]);
        assert forall|i: int| 0 <= i < n - 1 implies #[trigger] b.skip(1)[i] == a.skip(1)[i] by {
            assert(b[i + 1] == a[i + 1]);
        }
        lemma_common_at_least(a.skip(1), b.skip(1), n - 1);
    }
}

proof fn lemma_climbs(n: int, rest: Seq<Seq<char>>)
    requires
        0 <= n,
        plain_segments(rest),
    ensures
        climbs(link_path::ups(n) + rest) == n,
    decreases n + rest.len(),
{
    let all = link_path::ups(n) + rest;
    if rest.len() > 0 {
        let front = rest.drop_last();
        assert forall|i: int| 0 <= i < front.len() implies plain_segment(#[trigger] front[i]) by {
            assert(front[i] == rest[i]);
        }
        lemma_climbs(n, front);
        assert(all.drop_last() =~= link_path::ups(n) + front);
        assert(plain_segment(rest[rest.len() - 1]));
        assert(all.last() == rest[rest.len() - 1]);
    } else if n > 0 {
        lemma_climbs(n - 1, rest);
        assert(all.drop_last() =~= link_path::ups(n - 1) + rest);
        assert(all.last() == ".."@);
    }
}

/// A relative path climbs no more than it has to: any other way from the directory to the path
/// climbs at least as often.
pub proof fn law_relative_path_climbs_least(
    from_dir: Seq<char>,
    to_path: Seq<char>,
    other: Seq<char>,
)
    requires
        plain_dir(from_dir),
        plain_path(to_path),
        link_path::walk(link_path::dir_segments(from_dir), text::split_on(other, '/')) == Some(
            text::split_on(to_path, '/'),
        ),
    ensures
        climbs(text::split_on(link_path::relative_path(from_dir, to_path), '/')) <= climbs(
            text::split_on(other, '/'),
        ),
{
    let from = link_path::dir_segments(from_dir);
    let to = text::split_on(to_path, '/');
    let common = link_path::common_segments(from, to) as int;
    let rest = to.skip(common);
    let parts = text::split_on(link_path::relative_path(from_dir, to_path), '/');
    let steps = climbs(text::split_on(other, '/')) as int;
    lemma_slash();
    lemma_relative_parts(from_dir, to_path);
    assert forall|i: int| 0 <= i < rest.len() implies plain_segment(#[trigger] rest[i]) by {
        assert(rest[i] == to[i + common]);
    }
    lemma_walk_keeps(from, text::split_on(other, '/'), to);
    if from.len() > steps {
        lemma_common_at_least(from, to, from.len() - steps);
    }
    lemma_climbs(0, rest);
    assert(link_path::ups(0) + rest =~= rest);
    if from.len() == common && rest.len() == 1 {
    } else if from.len() == common && rest.len() == 0 {
        reveal_with_fuel(climbs, 3);
        assert("."@.len() == 1 && ".."@.len() == 2);
        assert(parts.drop_last() =~= seq!["."@]);
        assert(seq!["."@].drop_last() =~= Seq::<Seq<char>>::empty());
    } else if from.len() == common {
        lemma_climbs_behind_dot(rest);
    } else {
        lemma_climbs(from.len() - common, rest);
    }
}

proof fn lemma_climbs_behind_dot(rest: Seq<Seq<char>>)
    requires
        plain_segments(rest),
    ensures
        climbs(seq!["."@] + rest) == 0,
    decreases rest.len(),
{
    lemma_slash();
    let all = seq!["."@] + rest;
    if rest.len() == 0 {
        reveal_with_fuel(climbs, 2);
        assert("."@.len() == 1 && ".."@.len() == 2);
        assert(all =~= seq!["."@]);
        assert(all.drop_last() =~= Seq::<Seq<char>>::empty());
    } else {
        let front = rest.drop_last();
        assert forall|i: int| 0 <= i < front.len() implies plain_segment(#[trigger] front[i]) by {
            assert(front[i] == rest[i]);
        }
        lemma_climbs_behind_dot(front);
        assert(all.drop_last() =~= seq!["."@] + front);
        assert(plain_segment(rest[rest.len() - 1]));
        assert(all.last() == rest[rest.len() - 1]);
    }
}

/// A plain path begins with a name: it is not written relative to a note, and from the vault root
/// it leads to itself.
pub proof fn lemma_plain_start(path: Seq<char>)
    requires
        plain_path(path),
    ensures
        path.len() > 0,
        path[0] != '/',
        !link_path::note_relative(path),
        link_path::without_leading_slashes(path) == path,
        link_path::resolved_path(Seq::empty(), path) == Some(path),
{
    lemma_slash();
    let parts = text::split_on(path, '/');
    text::lemma_split_nonempty(path, '/');
    assert(plain_segment(parts[0]));
    if path.len() == 0 {
        assert(path =~= Seq::<char>::empty());
    }
    if path[0] == '/' {
        assert(path =~= Seq::<char>::empty() + seq!['/'] + path.skip(1));
        text::lemma_split_concat(Seq::empty(), path.skip(1), '/');
        assert(parts[0] == text::split_on(Seq::<char>::empty(), '/')[0]);
    }
    if "./"@.is_prefix_of(path) {
        assert(path[0] == '.' && path[1] == '/') by {
            assert(path.take(2)[0] == path[0]);
            assert(path.take(2)[1] == path[1]);
        }
        assert(path =~= seq!['.'] + seq!['/'] + path.skip(2));
        text::lemma_split_concat(seq!['.'], path.skip(2), '/');
        text::lemma_split_whole(seq!['.'], '/');
        assert(parts[0] == seq!['.']);
    }
    if "../"@.is_prefix_of(path) {
        assert(path[0] == '.' && path[1] == '.' && path[2] == '/') by {
            assert(path.take(3)[0] == path[0]);
            assert(path.take(3)[1] == path[1]);
            assert(path.take(3)[2] == path[2]);
        }
        assert(path =~= seq!['.', '.'] + seq!['/'] + path.skip(3));
        text::lemma_split_concat(seq!['.', '.'], path.skip(3), '/');
        text::lemma_split_whole(seq!['.', '.'], '/');
        assert(parts[0] == seq!['.', '.']);
    }
    let root = Seq::<Seq<char>>::empty();
    lemma_walk_down(root, parts);
    assert(root + parts =~= parts);
    text::law_join_split(path, '/');
}

/// The first part of joined parts stands at their start.
proof fn lemma_join_first(parts: Seq<Seq<char>>, sep: Seq<char>)
    requires
        parts.len() >= 2,
    ensures
        text::join_with(parts, sep) == parts[0] + sep + text::join_with(parts.skip(1), sep),
    decreases parts.len(),
{
    let rest = parts.skip(1);
    if parts.len() == 2 {
        assert(parts.drop_last() =~= seq![parts[0]]);
        assert(rest =~= seq![parts[1]]);
        assert(text::join_with(parts.drop_last(), sep) == parts[0]);
        assert(text::join_with(rest, sep) == parts[1]);
    } else {
        let front = parts.drop_last();
        lemma_join_first(front, sep);
        assert(front.skip(1) =~= rest.drop_last());
        assert(text::join_with(parts, sep) =~= parts[0] + sep + text::join_with(rest, sep));
    }
}

/// Whether a path ends in `.md` shows in its last segment.
proof fn lemma_md_in_last(head: Seq<char>, last: Seq<char>)
    requires
        !last.contains('/'),
    ensures
        link_path::has_md_extension(head + seq!['/'] + last) == link_path::has_md_extension(last),
{
    lemma_slash();
    let whole = head + seq!['/'] + last;
    let low = text::ascii_lower(whole);
    let low_last = text::ascii_lower(last);
    if last.len() >= 3 {
        assert(low.skip(low.len() - 3) =~= low_last.skip(low_last.len() - 3));
    } else if link_path::has_md_extension(whole) {
        let k = low.len() - last.len() - 1;
        assert(whole[k] == '/');
        assert(low[k] == '/');
        assert(low.skip(low.len() - 3)[k - (low.len() - 3)] == low[k]);
    }
}

proof fn lemma_md_of_segments(path: Seq<char>)
    ensures
        link_path::has_md_extension(path) == link_path::has_md_extension(
            text::split_on(path, '/').last(),
        ),
{
    let parts = text::split_on(path, '/');
    lemma_slash();
    text::lemma_split_parts(path, '/');
    text::law_join_split(path, '/');
    assert(!parts[parts.len() - 1].contains('/'));
    if parts.len() > 1 {
        lemma_md_in_last(text::join_with(parts.drop_last(), seq!['/']), parts.last());
    }
}

/// The segments before the last of a relative path lead to the directory of what it leads to, and
/// its last segment is the name there.
proof fn lemma_relative_walk(from_dir: Seq<char>, to_path: Seq<char>)
    requires
        plain_dir(from_dir),
        plain_segments(text::split_on(to_path, '/').drop_last()),
        !text::split_on(to_path, '/').is_prefix_of(link_path::dir_segments(from_dir)),
    ensures
        ({
            let from = link_path::dir_segments(from_dir);
            let to = text::split_on(to_path, '/');
            let common = link_path::common_segments(from, to) as int;
            let path = link_path::relative_path(from_dir, to_path);
            let parts = text::split_on(path, '/');
            &&& parts.len() > 0
            &&& link_path::walk(from, parts.drop_last()) == Some(to.drop_last())
            &&& parts.last() == to.last()
            &&& if to.drop_last() == from {
                path == to.last()
            } else {
                link_path::note_relative(path)
            }
        }),
{
    let from = link_path::dir_segments(from_dir);
    let to = text::split_on(to_path, '/');
    let common = link_path::common_segments(from, to) as int;
    let rest = to.skip(common);
    let path = link_path::relative_path(from_dir, to_path);
    let parts = text::split_on(path, '/');
    lemma_slash();
    text::lemma_split_nonempty(to_path, '/');
    text::lemma_split_nonempty(path, '/');
    lemma_relative_parts(from_dir, to_path);
    if rest.len() == 0 {
        assert(to =~= from.take(common));
        assert(to =~= from.take(to.len() as int));
    }
    assert(plain_segments(rest.drop_last())) by {
        assert forall|i: int| 0 <= i < rest.drop_last().len() implies plain_segment(
            #[trigger] rest.drop_last()[i],
        ) by {
            assert(rest.drop_last()[i] == to.drop_last()[i + common]);
        }
    }
    assert(to.drop_last() =~= to.take(common) + rest.drop_last());
    assert(rest.last() == to.last());
    if from.len() == common && rest.len() == 1 {
        assert(from =~= from.take(common));
        assert(parts.drop_last() =~= Seq::<Seq<char>>::empty());
        assert(to.drop_last() =~= from);
    } else if from.len() == common {
        assert(from =~= from.take(common));
        let dot = seq!["."@];
        assert(dot.drop_last() =~= Seq::<Seq<char>>::empty());
        assert(link_path::walk(from, dot) == Some(from)) by {
            reveal_with_fuel(link_path::walk, 2);
        }
        assert(parts.drop_last() =~= dot + rest.drop_last());
        lemma_walk_concat(from, dot, rest.drop_last());
        lemma_walk_down(from, rest.drop_last());
        assert(to.drop_last().len() != from.len());
        assert(path.take(2) =~= "./"@);
    } else {
        let n = from.len() - common;
        let all = link_path::ups(n) + rest;
        assert(parts.drop_last() =~= link_path::ups(n) + rest.drop_last());
        lemma_walk_concat(from, link_path::ups(n), rest.drop_last());
        lemma_walk_up(from, n);
        lemma_walk_down(from.take(common), rest.drop_last());
        lemma_join_first(all, "/"@);
        assert(all[0] == ".."@);
        assert(path.take(3) =~= "../"@);
        if to.drop_last() == from {
            lemma_common_of_prefix(from, to);
        }
    }
}

proof fn lemma_common_of_prefix(a: Seq<Seq<char>>, b: Seq<Seq<char>>)
    requires
        a.is_prefix_of(b),
    ensures
        link_path::common_segments(a, b) == a.len(),
    decreases a.len(),
{
    if a.len() > 0 {
        assert(b.take(a.len() as int)[0] == b[0]);
        assert(b.skip(1).take(a.len() - 1) =~= b.take(a.len() as int).skip(1));
        lemma_common_of_prefix(a.skip(1), b.skip(1));
    }
}

/// A note whose path can be written without its `.md` and read back: a plain path that ends in
/// `.md`, and of which what stands before that does not itself end in `.md`.
pub open spec fn plain_note(note: Seq<char>) -> bool {
    &&& plain_path(note)
    &&& ".md"@.is_suffix_of(note)
    &&& !link_path::has_md_extension(note.take(note.len() - 3))
}

proof fn lemma_plain_note(note: Seq<char>)
    requires
        plain_note(note),
    ensures
        ({
            let stripped = link_path::without_md(note);
            let to = text::split_on(stripped, '/');
            &&& stripped == note.take(note.len() - 3)
            &&& link_path::has_md_extension(note)
            &&& stripped + ".md"@ == note
            &&& to.len() > 0
            &&& text::split_on(note, '/') == to.drop_last().push(to.last() + ".md"@)
            &&& plain_segments(to.drop_last())
        }),
{
    lemma_slash();
    let stripped = note.take(note.len() - 3);
    assert(note.skip(note.len() - 3) =~= ".md"@);
    let low = text::ascii_lower(note);
    assert forall|i: int| 0 <= i < 3 implies low.skip(low.len() - 3)[i] == ".md"@[i] by {
        assert(low.skip(low.len() - 3)[i] == text::lower(note[note.len() - 3 + i]));
        assert(note.skip(note.len() - 3)[i] == note[note.len() - 3 + i]);
    }
    assert(low.skip(low.len() - 3) =~= ".md"@);
    assert(link_path::has_md_extension(note));
    assert(stripped + ".md"@ =~= note);
    text::lemma_split_nonempty(stripped, '/');
    text::lemma_split_tail(stripped, ".md"@, '/');
    let to = text::split_on(stripped, '/');
    assert forall|i: int| 0 <= i < to.drop_last().len() implies plain_segment(
        #[trigger] to.drop_last()[i],
    ) by {
        assert(to.drop_last()[i] == text::split_on(note, '/')[i]);
    }
}

/// What a link target names, if it names anything, ends in `.md`.
pub proof fn law_wiki_target_is_a_note(source_path: Seq<char>, raw_target: Seq<char>)
    ensures
        match link_path::wiki_target(source_path, raw_target) {
            Some(path) => link_path::has_md_extension(path),
            None => true,
        },
{
    lemma_slash();
    let base = if link_path::note_relative(raw_target) {
        link_path::parent_of(source_path)
    } else {
        Seq::empty()
    };
    let cleaned = link_path::without_leading_slashes(raw_target);
    let candidate = link_path::with_md_extension(cleaned);
    if !link_path::has_md_extension(cleaned) {
        let low = text::ascii_lower(candidate);
        assert(low.skip(low.len() - 3) =~= ".md"@);
    }
    let from = link_path::dir_segments(base);
    let parts = text::split_on(candidate, '/');
    lemma_md_of_segments(candidate);
    text::lemma_split_parts(candidate, '/');
    let last = parts.last();
    assert(last == parts[parts.len() - 1]);
    assert(text::ascii_lower(last).len() >= 3);
    if let Some(here) = link_path::walk(from, parts.drop_last()) {
        let all = here.push(last);
        assert(link_path::step(here, last) == Some(all));
        assert(all.drop_last() =~= here);
        if here.len() > 0 {
            lemma_md_in_last(text::join_with(here, "/"@), last);
        }
    }
}

/// A target that goes further up than the directory of its note lies deep names nothing.
pub proof fn law_escape_names_nothing(source_dir: Seq<char>, target: Seq<char>, n: int)
    requires
        link_path::dir_segments(source_dir).len() < n <= text::split_on(target, '/').len(),
        text::split_on(target, '/').take(n) == link_path::ups(n),
    ensures
        link_path::resolved_path(source_dir, target) is None,
{
    lemma_slash();
    let from = link_path::dir_segments(source_dir);
    let parts = text::split_on(target, '/');
    let depth = from.len() as int;
    lemma_walk_up(from, depth);
    let one = link_path::ups(depth + 1);
    assert(one.drop_last() =~= link_path::ups(depth));
    assert(one.last() == ".."@);
    assert(from.take(0).len() == 0);
    assert(link_path::walk(from, one) is None);
    let rest = parts.skip(depth + 1);
    assert(one =~= parts.take(n).take(depth + 1));
    assert(parts =~= one + rest);
    lemma_walk_concat(from, one, rest);
}

/// A path from a directory, with `./` in front of a bare name, is written relative to a note; its
/// segments before the last lead to the directory of what it leads to, and its last segment is the
/// name there.
proof fn lemma_note_relative_walk(dir: Seq<char>, to_path: Seq<char>)
    requires
        plain_dir(dir),
        plain_segments(text::split_on(to_path, '/').drop_last()),
        !text::split_on(to_path, '/').is_prefix_of(link_path::dir_segments(dir)),
    ensures
        ({
            let from = link_path::dir_segments(dir);
            let to = text::split_on(to_path, '/');
            let path = link_path::note_relative_path(dir, to_path);
            let parts = text::split_on(path, '/');
            &&& parts.len() > 0
            &&& link_path::walk(from, parts.drop_last()) == Some(to.drop_last())
            &&& parts.last() == to.last()
            &&& link_path::note_relative(path)
        }),
{
    lemma_slash();
    let from = link_path::dir_segments(dir);
    let to = text::split_on(to_path, '/');
    let short = link_path::relative_path(dir, to_path);
    let path = link_path::note_relative_path(dir, to_path);
    lemma_relative_walk(dir, to_path);
    text::lemma_split_parts(to_path, '/');
    if to.drop_last() == from {
        assert(!to[to.len() - 1].contains('/'));
        assert(!link_path::note_relative(short)) by {
            if "./"@.is_prefix_of(short) {
                assert(short.take(2)[1] == short[1]);
                assert(short[1] == '/');
            }
            if "../"@.is_prefix_of(short) {
                assert(short.take(3)[2] == short[2]);
                assert(short[2] == '/');
            }
        }
        assert(path =~= seq!['.'] + seq!['/'] + short);
        text::lemma_split_concat(seq!['.'], short, '/');
        text::lemma_split_whole(seq!['.'], '/');
        text::lemma_split_whole(short, '/');
        let parts = text::split_on(path, '/');
        assert(parts =~= seq!["."@, short]);
        assert(parts.drop_last() =~= seq!["."@]);
        assert(seq!["."@].drop_last() =~= Seq::<Seq<char>>::empty());
        assert(link_path::walk(from, seq!["."@]) == Some(from)) by {
            reveal_with_fuel(link_path::walk, 2);
        }
        assert(path.take(2) =~= "./"@);
    }
}

proof fn lemma_note_relative_start(path: Seq<char>)
    requires
        link_path::note_relative(path),
    ensures
        path.len() > 0,
        link_path::without_leading_slashes(path) == path,
{
    lemma_slash();
    if "./"@.is_prefix_of(path) {
        assert(path.take(2)[0] == path[0]);
    } else {
        assert(path.take(3)[0] == path[0]);
    }
}

/// What a wiki link is written as leads back to its note: a link from the vault root unless there
/// is nothing before the `.md` of its note, and one written relative to the note that holds it
/// unless the path of its note, without its `.md`, is a directory that the other note lies in.
pub proof fn law_wiki_text_leads_back(source_path: Seq<char>, note: Seq<char>, relative: bool)
    requires
        plain_note(note),
        !relative || link_path::parent_of(source_path).len() == 0 ==> note != ".md"@,
        relative ==> plain_dir(link_path::parent_of(source_path)),
        relative ==> !text::split_on(link_path::without_md(note), '/').is_prefix_of(
            link_path::dir_segments(link_path::parent_of(source_path)),
        ),
    ensures
        link_path::wiki_target(source_path, link_path::wiki_text(source_path, note, relative))
            == Some(note),
{
    lemma_plain_note(note);
    lemma_plain_start(note);
    let stripped = link_path::without_md(note);
    let dir = link_path::parent_of(source_path);
    if !relative || dir.len() == 0 {
        lemma_slash();
        if stripped.len() == 0 {
            assert(note =~= ".md"@);
        }
        assert(stripped[0] == note[0]);
        if "./"@.is_prefix_of(stripped) {
            assert(note.take(2) =~= stripped.take(2));
        }
        if "../"@.is_prefix_of(stripped) {
            assert(note.take(3) =~= stripped.take(3));
        }
    } else {
        lemma_relative_text_leads_back(dir, note);
        lemma_note_relative_walk(dir, stripped);
        lemma_note_relative_start(link_path::note_relative_path(dir, stripped));
    }
}

proof fn lemma_relative_text_leads_back(dir: Seq<char>, note: Seq<char>)
    requires
        plain_note(note),
        plain_dir(dir),
        !text::split_on(link_path::without_md(note), '/').is_prefix_of(
            link_path::dir_segments(dir),
        ),
    ensures
        ({
            let path = link_path::note_relative_path(dir, link_path::without_md(note));
            link_path::resolved_path(dir, link_path::with_md_extension(path)) == Some(note)
        }),
{
    lemma_slash();
    lemma_plain_note(note);
    let stripped = link_path::without_md(note);
    let from = link_path::dir_segments(dir);
    let to = text::split_on(stripped, '/');
    let path = link_path::note_relative_path(dir, stripped);
    let parts = text::split_on(path, '/');
    lemma_note_relative_walk(dir, stripped);
    lemma_md_of_segments(path);
    lemma_md_of_segments(stripped);
    text::lemma_split_tail(path, ".md"@, '/');
    let full = text::split_on(path + ".md"@, '/');
    let end = text::split_on(note, '/');
    assert(full.drop_last() =~= parts.drop_last());
    assert(full.last() == end.last());
    assert(plain_segment(end[end.len() - 1]));
    assert(end =~= to.drop_last().push(end.last()));
    assert(link_path::walk(from, full) == Some(end));
    lemma_plain_join(end);
    text::law_join_split(note, '/');
}

/// A wiki link to a note is written in the manner that is asked for: relative to the note that holds
/// it, unless that lies in the vault root, or from the vault root.
pub proof fn law_wiki_text_has_the_form_asked_for(
    source_path: Seq<char>,
    note: Seq<char>,
    relative: bool,
)
    requires
        plain_path(note),
    ensures
        link_path::note_relative(link_path::wiki_text(source_path, note, relative)) == (relative
            && link_path::parent_of(source_path).len() > 0),
{
    lemma_slash();
    let stripped = link_path::without_md(note);
    let dir = link_path::parent_of(source_path);
    if !relative || dir.len() == 0 {
        lemma_plain_start(note);
        if "./"@.is_prefix_of(stripped) {
            assert(note.take(2) =~= stripped.take(2));
        }
        if "../"@.is_prefix_of(stripped) {
            assert(note.take(3) =~= stripped.take(3));
        }
    } else {
        lemma_note_relative_form(dir, stripped);
    }
}

proof fn lemma_note_relative_form(dir: Seq<char>, to_path: Seq<char>)
    ensures
        link_path::note_relative(link_path::note_relative_path(dir, to_path)),
{
    lemma_slash();
    let from = link_path::dir_segments(dir);
    let to = text::split_on(to_path, '/');
    let common = link_path::common_segments(from, to) as int;
    let rest = to.skip(common);
    let short = link_path::relative_path(dir, to_path);
    let path = link_path::note_relative_path(dir, to_path);
    lemma_common(from, to);
    text::lemma_split_parts(to_path, '/');
    if from.len() == common && rest.len() == 1 {
        assert(rest[0] == to[common]);
        assert(path.take(2) =~= "./"@ || link_path::note_relative(short));
    } else if from.len() == common {
        assert(short.take(2) =~= "./"@);
    } else {
        let all = link_path::ups(from.len() - common) + rest;
        assert(all[0] == ".."@);
        if all.len() == 1 {
            assert(short == ".."@);
            assert(!short.contains('/'));
            assert(path.take(2) =~= "./"@);
        } else {
            lemma_join_first(all, "/"@);
            assert(short.take(3) =~= "../"@);
        }
    }
}

/// The destination of a Markdown link, followed from the directory of the note that holds it,
/// leads to the note that it was written for.
pub proof fn law_markdown_href_leads_back(source_path: Seq<char>, note: Seq<char>)
    requires
        plain_path(note),
        plain_dir(link_path::parent_of(source_path)),
    ensures
        link_path::resolved_path(
            link_path::parent_of(source_path),
            link_path::markdown_href(source_path, note),
        ) == Some(note),
{
    let dir = link_path::parent_of(source_path);
    if dir.len() == 0 {
        lemma_plain_start(note);
        assert(dir =~= Seq::<char>::empty());
    } else {
        law_relative_path_leads_back(dir, note);
    }
}

proof fn lemma_plain_front(path: Seq<char>)
    requires
        plain_path(path),
    ensures
        plain_segments(text::split_on(path, '/').drop_last()),
{
    let parts = text::split_on(path, '/');
    assert forall|i: int| 0 <= i < parts.drop_last().len() implies plain_segment(
        #[trigger] parts.drop_last()[i],
    ) by {
        assert(parts.drop_last()[i] == parts[i]);
    }
}

/// The destination of a Markdown link is read back as the note that it was written for, unless
/// both notes lie in one directory below the vault root, where the destination is a bare name.
pub proof fn law_markdown_href_is_read_back(source_path: Seq<char>, note: Seq<char>)
    requires
        plain_path(note),
        link_path::has_md_extension(note),
        plain_dir(link_path::parent_of(source_path)),
        link_path::parent_of(source_path).len() > 0 ==> {
            &&& text::split_on(note, '/').drop_last() != link_path::dir_segments(
                link_path::parent_of(source_path),
            )
            &&& !text::split_on(note, '/').is_prefix_of(
                link_path::dir_segments(link_path::parent_of(source_path)),
            )
        },
    ensures
        link_path::wiki_target(source_path, link_path::markdown_href(source_path, note)) == Some(
            note,
        ),
{
    let dir = link_path::parent_of(source_path);
    lemma_slash();
    if dir.len() == 0 {
        lemma_plain_start(note);
    } else {
        let path = link_path::relative_path(dir, note);
        lemma_plain_front(note);
        lemma_relative_walk(dir, note);
        lemma_md_of_segments(path);
        lemma_md_of_segments(note);
        assert(path.len() > 0 && path[0] == '.') by {
            if "./"@.is_prefix_of(path) {
                assert(path.take(2)[0] == path[0]);
            } else {
                assert(path.take(3)[0] == path[0]);
            }
        }
        law_relative_path_leads_back(dir, note);
    }
}

/// A vault path that ends in `.md`, written as it stands, is read back as itself wherever it is
/// written.
pub proof fn law_vault_path_is_read_back(source_path: Seq<char>, note: Seq<char>)
    requires
        plain_path(note),
        link_path::has_md_extension(note),
    ensures
        link_path::wiki_target(source_path, note) == Some(note),
{
    lemma_plain_start(note);
}

/// The destination of a Markdown link ends in `.md` if the path of its note does.
pub proof fn law_markdown_href_keeps_extension(source_path: Seq<char>, note: Seq<char>)
    requires
        plain_path(note),
        plain_dir(link_path::parent_of(source_path)),
        !text::split_on(note, '/').is_prefix_of(
            link_path::dir_segments(link_path::parent_of(source_path)),
        ),
    ensures
        link_path::has_md_extension(link_path::markdown_href(source_path, note))
            == link_path::has_md_extension(note),
{
    let dir = link_path::parent_of(source_path);
    if dir.len() > 0 {
        lemma_plain_front(note);
        lemma_relative_walk(dir, note);
        lemma_md_of_segments(link_path::relative_path(dir, note));
        lemma_md_of_segments(note);
    }
}

} // verus!
