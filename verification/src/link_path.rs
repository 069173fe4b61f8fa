use crate::text;
use vstd::prelude::*;
use vstd::slice::slice_subrange;

verus! {

/// The segments of a directory path; the vault root, written as the empty text, has none.
pub open spec fn dir_segments(dir: Seq<char>) -> Seq<Seq<char>> {
    if dir.len() == 0 {
        Seq::empty()
    } else {
        text::split_on(dir, '/')
    }
}

/// Where one path part leads from the directory `at`; `None` above the vault root.
pub open spec fn step(at: Seq<Seq<char>>, part: Seq<char>) -> Option<Seq<Seq<char>>> {
    if part == "."@ || part.len() == 0 {
        Some(at)
    } else if part == ".."@ {
        if at.len() == 0 {
            None
        } else {
            Some(at.drop_last())
        }
    } else {
        Some(at.push(part))
    }
}

/// Where `parts`, taken one after the other, lead from the directory `at`.
pub open spec fn walk(at: Seq<Seq<char>>, parts: Seq<Seq<char>>) -> Option<Seq<Seq<char>>>
    decreases parts.len(),
{
    if parts.len() == 0 {
        Some(at)
    } else {
        match walk(at, parts.drop_last()) {
            Some(here) => step(here, parts.last()),
            None => None,
        }
    }
}

/// The vault path that `target` names as seen from `source_dir`; `None` if it leaves the vault
/// or names the vault root.
pub open spec fn resolved_path(source_dir: Seq<char>, target: Seq<char>) -> Option<Seq<char>> {
    match walk(dir_segments(source_dir), text::split_on(target, '/')) {
        Some(segments) => {
            let joined = text::join_with(segments, "/"@);
            if joined.len() == 0 {
                None
            } else {
                Some(joined)
            }
        },
        None => None,
    }
}

/// The segments of a directory path.
fn dir_rows(dir: &[char]) -> (r: Vec<Vec<char>>)
    ensures
        text::rows(r@) == dir_segments(dir@),
{
    if dir.len() == 0 {
        let none: Vec<Vec<char>> = Vec::new();
        assert(text::rows(none@) =~= Seq::<Seq<char>>::empty());
        none
    } else {
        text::split(dir, '/')
    }
}

/// The vault path that `target` names as seen from the directory `source_dir`.
pub fn resolve_relative_path(source_dir: &str, target: &str) -> (r: Option<String>)
    ensures
        match r {
            Some(p) => resolved_path(source_dir@, target@) == Some(p@),
            None => resolved_path(source_dir@, target@) is None,
        },
{
    let dir_chars = text::chars_of(source_dir);
    let target_chars = text::chars_of(target);
    let mut segments = dir_rows(dir_chars.as_slice());
    let parts = text::split(target_chars.as_slice(), '/');
    let dot = text::chars_of(".");
    let dots = text::chars_of("..");
    let ghost all = text::rows(parts@);
    let ghost start = text::rows(segments@);
    let mut i: usize = 0;
    proof {
        assert(all.take(0) =~= Seq::<Seq<char>>::empty());
    }
    while i < parts.len()
        invariant
            i <= parts@.len(),
            all == text::rows(parts@),
            dot@ == "."@,
            dots@ == ".."@,
            walk(start, all.take(i as int)) == Some(text::rows(segments@)),
            start == dir_segments(source_dir@),
            all == text::split_on(target@, '/'),
        decreases parts.len() - i,
    {
        let part = parts[i].as_slice();
        let ghost here = text::rows(segments@);
        proof {
            assert(all.take(i + 1).drop_last() =~= all.take(i as int));
            assert(all.take(i + 1).last() == part@);
        }
        if part.len() == 0 || text::same_chars(part, dot.as_slice()) {
        } else if text::same_chars(part, dots.as_slice()) {
            match segments.pop() {
                None => {
                    proof {
                        lemma_walk_stops(start, all, i + 1);
                    }
                    return None;
                },
                Some(_) => {
                    assert(text::rows(segments@) =~= here.drop_last());
                },
            }
        } else {
            segments.push(text::copied(part));
            assert(text::rows(segments@) =~= here.push(part@));
        }
        i += 1;
    }
    proof {
        assert(all.take(parts@.len() as int) =~= all);
    }
    let slash = text::chars_of("/");
    let joined = text::join(&segments, slash.as_slice());
    if joined.len() == 0 {
        None
    } else {
        Some(text::string_of(joined.as_slice()))
    }
}

/// Once a walk has left the vault it does not come back.
proof fn lemma_walk_stops(at: Seq<Seq<char>>, parts: Seq<Seq<char>>, n: int)
    requires
        0 <= n <= parts.len(),
        walk(at, parts.take(n)) is None,
    ensures
        walk(at, parts) is None,
    decreases parts.len(),
{
    if n == parts.len() {
        assert(parts.take(n) =~= parts);
    } else {
        assert(parts.drop_last().take(n) =~= parts.take(n));
        lemma_walk_stops(at, parts.drop_last(), n);
    }
}

/// The part of a path before its last slash; empty if it has none.
pub open spec fn parent_of(path: Seq<char>) -> Seq<char> {
    let i = text::last_at(path, '/');
    if i < 0 {
        Seq::empty()
    } else {
        path.take(i)
    }
}

/// The directory that a note lies in: what stands before the last slash of its path.
pub fn source_dir_from_path(source_path: &str) -> (r: &str)
    ensures
        r@ == parent_of(source_path@),
{
    let path = text::chars_of(source_path);
    match text::find_last(path.as_slice(), '/') {
        Some(i) => {
            assert(source_path@.subrange(0, i as int) =~= source_path@.take(i as int));
            source_path.substring_char(0, i)
        },
        None => {
            assert(source_path@.subrange(0, 0) =~= Seq::<char>::empty());
            source_path.substring_char(0, 0)
        },
    }
}

/// Whether a text ends in `.md`, in upper or lower case.
pub open spec fn has_md_extension(value: Seq<char>) -> bool {
    ".md"@.is_suffix_of(text::ascii_lower(value))
}

/// Whether `value` ends in `.md`, in upper or lower case.
pub fn ends_in_md(value: &[char]) -> (r: bool)
    ensures
        r == has_md_extension(value@),
{
    let low = text::lowered(value);
    let md = text::chars_of(".md");
    text::has_suffix(low.as_slice(), md.as_slice())
}

/// `value`, with `.md` put behind it unless it ends in `.md` already.
pub open spec fn with_md_extension(value: Seq<char>) -> Seq<char> {
    if has_md_extension(value) {
        value
    } else {
        value + ".md"@
    }
}

/// `value`, with `.md` put behind it unless it ends in `.md` already.
pub fn ensure_md_extension(value: &str) -> (r: String)
    ensures
        r@ == with_md_extension(value@),
{
    let mut chars = text::chars_of(value);
    if !ends_in_md(chars.as_slice()) {
        let md = text::chars_of(".md");
        text::append(&mut chars, md.as_slice());
    }
    text::string_of(chars.as_slice())
}

/// Whether a link target is written relative to the note that holds it.
pub open spec fn note_relative(target: Seq<char>) -> bool {
    "./"@.is_prefix_of(target) || "../"@.is_prefix_of(target)
}

/// Whether a link target is written relative to the note that holds it: with `./` or `../`.
pub fn is_note_relative_target(raw_target: &str) -> (r: bool)
    ensures
        r == note_relative(raw_target@),
{
    let target = text::chars_of(raw_target);
    let here = text::chars_of("./");
    let up = text::chars_of("../");
    text::has_prefix(target.as_slice(), here.as_slice()) || text::has_prefix(
        target.as_slice(),
        up.as_slice(),
    )
}

/// `s` without the slashes at its start.
pub open spec fn without_leading_slashes(s: Seq<char>) -> Seq<char>
    decreases s.len(),
{
    if s.len() > 0 && s[0] == '/' {
        without_leading_slashes(s.skip(1))
    } else {
        s
    }
}

/// The note that a link target names: relative to the note at `source_path` if it is written so,
/// and else relative to the vault root.
pub open spec fn wiki_target(source_path: Seq<char>, raw_target: Seq<char>) -> Option<Seq<char>> {
    let base = if note_relative(raw_target) {
        parent_of(source_path)
    } else {
        Seq::empty()
    };
    let cleaned = without_leading_slashes(raw_target);
    if cleaned.len() == 0 {
        None
    } else {
        resolved_path(base, with_md_extension(cleaned))
    }
}

/// The slice of `s` behind the slashes at its start.
fn after_slashes(s: &[char]) -> (r: &[char])
    ensures
        r@ == without_leading_slashes(s@),
{
    let mut i: usize = 0;
    proof {
        assert(s@.skip(0) =~= s@);
    }
    while i < s.len() && s[i] == '/'
        invariant
            i <= s@.len(),
            without_leading_slashes(s@) == without_leading_slashes(s@.skip(i as int)),
        decreases s.len() - i,
    {
        proof {
            assert(s@.skip(i as int)[0] == s@[i as int]);
            assert(s@.skip(i as int).skip(1) =~= s@.skip(i + 1));
        }
        i += 1;
    }
    proof {
        if i < s.len() {
            assert(s@.skip(i as int)[0] == s@[i as int]);
        }
        assert(s@.subrange(i as int, s@.len() as int) =~= s@.skip(i as int));
    }
    slice_subrange(s, i, s.len())
}

/// The vault path of the note that `raw_target` names in a link of the note at `source_path`.
pub fn resolve_wiki_target(source_path: &str, raw_target: &str) -> (r: Option<String>)
    ensures
        match r {
            Some(p) => wiki_target(source_path@, raw_target@) == Some(p@),
            None => wiki_target(source_path@, raw_target@) is None,
        },
{
    let target = text::chars_of(raw_target);
    let cleaned = after_slashes(target.as_slice());
    if cleaned.len() == 0 {
        return None;
    }
    let cleaned = text::string_of(cleaned);
    let candidate = ensure_md_extension(cleaned.as_str());
    if is_note_relative_target(raw_target) {
        resolve_relative_path(source_dir_from_path(source_path), candidate.as_str())
    } else {
        let root = String::new();
        resolve_relative_path(root.as_str(), candidate.as_str())
    }
}

/// How many segments `a` and `b` have in common at their start.
pub open spec fn common_segments(a: Seq<Seq<char>>, b: Seq<Seq<char>>) -> nat
    decreases a.len(),
{
    if a.len() > 0 && b.len() > 0 && a[0] == b[0] {
        1 + common_segments(a.skip(1), b.skip(1))
    } else {
        0
    }
}

/// `n` times the segment that leads one directory up.
pub open spec fn ups(n: int) -> Seq<Seq<char>> {
    Seq::new(n as nat, |i: int| ".."@)
}

/// The path that leads from the directory `from_dir` to `to_path`.
pub open spec fn relative_path(from_dir: Seq<char>, to_path: Seq<char>) -> Seq<char> {
    let from = dir_segments(from_dir);
    let to = text::split_on(to_path, '/');
    let common = common_segments(from, to) as int;
    let rest = to.skip(common);
    if from.len() == common && rest.len() == 1 {
        rest[0]
    } else if from.len() == common {
        "./"@ + text::join_with(rest, "/"@)
    } else {
        text::join_with(ups(from.len() - common) + rest, "/"@)
    }
}

/// The path that leads from the directory `from_dir` to `to_path`.
pub fn compute_relative_path(from_dir: &str, to_path: &str) -> (r: String)
    ensures
        r@ == relative_path(from_dir@, to_path@),
{
    let from_chars = text::chars_of(from_dir);
    let to_chars = text::chars_of(to_path);
    let from = dir_rows(from_chars.as_slice());
    let to = text::split(to_chars.as_slice(), '/');
    let ghost f = text::rows(from@);
    let ghost t = text::rows(to@);
    let mut common: usize = 0;
    proof {
        assert(f.skip(0) =~= f);
        assert(t.skip(0) =~= t);
    }
    while common < from.len() && common < to.len() && text::same_chars(
        from[common].as_slice(),
        to[common].as_slice(),
    )
        invariant
            common <= from@.len(),
            common <= to@.len(),
            f == text::rows(from@),
            t == text::rows(to@),
            common_segments(f, t) == common + common_segments(
                f.skip(common as int),
                t.skip(common as int),
            ),
        decreases from.len() - common,
    {
        proof {
            assert(f.skip(common as int)[0] == from@[common as int]@);
            assert(t.skip(common as int)[0] == to@[common as int]@);
            assert(f.skip(common as int).skip(1) =~= f.skip(common + 1));
            assert(t.skip(common as int).skip(1) =~= t.skip(common + 1));
        }
        common += 1;
    }
    proof {
        if common < from.len() && common < to.len() {
            assert(f.skip(common as int)[0] == from@[common as int]@);
            assert(t.skip(common as int)[0] == to@[common as int]@);
        }
    }
    let ghost rest = t.skip(common as int);
    let slash = text::chars_of("/");
    if from.len() == common && to.len() - common == 1 {
        assert(rest[0] == to@[common as int]@);
        return text::string_of(to[common].as_slice());
    }
    let mut parts: Vec<Vec<char>> = Vec::new();
    let mut i: usize = 0;
    while i < from.len() - common
        invariant
            common <= from@.len(),
            i <= from@.len() - common,
            text::rows(parts@) =~= ups(i as int),
        decreases from.len() - common - i,
    {
        let ghost before = parts@;
        parts.push(text::chars_of(".."));
        i += 1;
        proof {
            text::lemma_rows_push(before, parts@.last());
            assert(ups(i as int) =~= ups(i - 1).push(".."@));
        }
    }
    let mut j: usize = common;
    while j < to.len()
        invariant
            common <= from@.len(),
            common <= j <= to@.len(),
            t == text::rows(to@),
            rest == t.skip(common as int),
            text::rows(parts@) =~= ups(from@.len() - common) + rest.take(j - common),
        decreases to.len() - j,
    {
        let ghost before = parts@;
        parts.push(text::copied(to[j].as_slice()));
        j += 1;
        proof {
            text::lemma_rows_push(before, parts@.last());
            assert(rest.take(j - common) =~= rest.take(j - 1 - common).push(rest[j - 1 - common]));
        }
    }
    proof {
        assert(rest.take(to@.len() - common) =~= rest);
        if from.len() == common {
            assert(ups(0) + rest =~= rest);
        }
    }
    let joined = text::join(&parts, slash.as_slice());
    if from.len() == common {
        let mut out = text::chars_of("./");
        text::append(&mut out, joined.as_slice());
        text::string_of(out.as_slice())
    } else {
        text::string_of(joined.as_slice())
    }
}

/// `value` without the `.md` at its end, if it has one.
pub open spec fn without_md(value: Seq<char>) -> Seq<char> {
    if has_md_extension(value) {
        value.take(value.len() - 3)
    } else {
        value
    }
}

/// `value` without the `.md` at its end, if it has one.
pub fn strip_md_ext(value: &str) -> (r: &str)
    ensures
        r@ == without_md(value@),
{
    let chars = text::chars_of(value);
    proof {
        reveal_strlit(".md");
    }
    if ends_in_md(chars.as_slice()) {
        assert(value@.subrange(0, value@.len() - 3) =~= value@.take(value@.len() - 3));
        value.substring_char(0, chars.len() - 3)
    } else {
        value
    }
}

/// The path from `from_dir` to `to_path`, with `./` in front of a bare name.
pub open spec fn note_relative_path(from_dir: Seq<char>, to_path: Seq<char>) -> Seq<char> {
    let path = relative_path(from_dir, to_path);
    if !note_relative(path) && !path.contains('/') {
        "./"@ + path
    } else {
        path
    }
}

/// The path from `from_dir` to `to_path`, with `./` in front of a bare name.
pub fn compute_note_relative_path(from_dir: &str, to_path: &str) -> (r: String)
    ensures
        r@ == note_relative_path(from_dir@, to_path@),
{
    let result = compute_relative_path(from_dir, to_path);
    if is_note_relative_target(result.as_str()) {
        return result;
    }
    let chars = text::chars_of(result.as_str());
    let slash = text::find_first(chars.as_slice(), '/');
    if slash < chars.len() {
        assert(result@[slash as int] == '/');
        return result;
    }
    let mut out = text::chars_of("./");
    text::append(&mut out, chars.as_slice());
    text::string_of(out.as_slice())
}

/// How a wiki link in the note at `source_path` writes the note at `resolved`.
pub open spec fn wiki_text(source_path: Seq<char>, resolved: Seq<char>, relative: bool) -> Seq<char> {
    let stripped = without_md(resolved);
    let dir = parent_of(source_path);
    if !relative || dir.len() == 0 {
        stripped
    } else {
        note_relative_path(dir, stripped)
    }
}

/// How a wiki link in the note at `source_path` writes the note at `resolved_note_path`: without
/// its `.md`, and from that note's directory if `note_relative` is set.
pub fn format_wiki_target(source_path: &str, resolved_note_path: &str, note_relative: bool) -> (r:
    String)
    ensures
        r@ == wiki_text(source_path@, resolved_note_path@, note_relative),
{
    let stripped = strip_md_ext(resolved_note_path);
    if !note_relative {
        return stripped.to_owned();
    }
    let source_dir = source_dir_from_path(source_path);
    if source_dir.is_empty() {
        return stripped.to_owned();
    }
    compute_note_relative_path(source_dir, stripped)
}

/// How a Markdown link in the note at `source_path` writes the note at `resolved`.
pub open spec fn markdown_href(source_path: Seq<char>, resolved: Seq<char>) -> Seq<char> {
    let dir = parent_of(source_path);
    if dir.len() == 0 {
        resolved
    } else {
        relative_path(dir, resolved)
    }
}

/// How a Markdown link in the note at `source_path` writes the note at `resolved_note_path`.
pub fn format_markdown_link_href(source_path: &str, resolved_note_path: &str) -> (r: String)
    ensures
        r@ == markdown_href(source_path@, resolved_note_path@),
{
    let source_dir = source_dir_from_path(source_path);
    if source_dir.is_empty() {
        return resolved_note_path.to_owned();
    }
    compute_relative_path(source_dir, resolved_note_path)
}

} // verus!
