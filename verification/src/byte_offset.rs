use crate::markdown::SourcePos;
use crate::text;
use vstd::prelude::*;
use vstd::utf8::*;

verus! {

/// How many bytes a text takes in UTF-8.
pub open spec fn byte_len(s: Seq<char>) -> nat {
    encode_utf8(s).len()
}

/// How many bytes a character takes in UTF-8.
pub open spec fn char_width(c: char) -> nat {
    encode_scalar(c as u32).len()
}

/// How many bytes `c` takes in UTF-8: one to four.
pub fn width(c: char) -> (r: usize)
    ensures
        r == char_width(c),
        1 <= r <= 4,
{
    let v: u32 = c as u32;
    proof {
        char_is_scalar(c);
    }
    if v <= 0x7f {
        1
    } else if v <= 0x7ff {
        2
    } else if v <= 0xffff {
        3
    } else {
        4
    }
}

/// The bytes of two texts in a row are the bytes of the one and then those of the other.
proof fn lemma_encode_concat(a: Seq<char>, b: Seq<char>)
    ensures
        encode_utf8(a + b) == encode_utf8(a) + encode_utf8(b),
    decreases a.len(),
{
    if a.len() == 0 {
        assert(a + b =~= b);
        assert(encode_utf8(a) + encode_utf8(b) =~= encode_utf8(b));
    } else {
        let rest = a.drop_first();
        lemma_encode_concat(rest, b);
        assert((a + b).drop_first() =~= rest + b);
        assert((a + b)[0] == a[0]);
        assert(encode_utf8(a + b) =~= encode_utf8(a) + encode_utf8(b));
    }
}

proof fn lemma_encode_one(c: char)
    ensures
        byte_len(seq![c]) == char_width(c),
{
    let s = seq![c];
    assert(s.drop_first() =~= Seq::<char>::empty());
    assert(encode_utf8(s) =~= encode_scalar(c as u32) + encode_utf8(s.drop_first()));
}

/// One character more makes a text longer by the width of the character.
pub proof fn lemma_byte_len_next(s: Seq<char>, i: int)
    requires
        0 <= i < s.len(),
    ensures
        byte_len(s.take(i + 1)) == byte_len(s.take(i)) + char_width(s[i]),
{
    assert(s.take(i + 1) =~= s.take(i) + seq![s[i]]);
    lemma_encode_concat(s.take(i), seq![s[i]]);
    lemma_encode_one(s[i]);
}

/// A longer prefix takes more bytes.
pub proof fn lemma_byte_len_grows(s: Seq<char>, i: int, j: int)
    requires
        0 <= i <= j <= s.len(),
    ensures
        byte_len(s.take(i)) + (j - i) <= byte_len(s.take(j)),
    decreases j - i,
{
    if i < j {
        lemma_byte_len_grows(s, i, j - 1);
        lemma_byte_len_next(s, j - 1);
        char_is_scalar(s[j - 1]);
    }
}

/// Whether the first `i` characters of `s` take `offset` bytes.
pub open spec fn starts_at(s: Seq<char>, i: int, offset: int) -> bool {
    0 <= i <= s.len() && byte_len(s.take(i)) == offset
}

/// Whether the byte offset `offset` falls between two characters of `s`, or on one of its ends.
pub open spec fn on_boundary(s: Seq<char>, offset: int) -> bool {
    exists|i: int| starts_at(s, i, offset)
}

/// How many characters of `s` stand before the byte offset `offset`.
pub open spec fn char_index(s: Seq<char>, offset: int) -> int {
    choose|i: int| starts_at(s, i, offset)
}

/// No two places of a text have the same byte offset.
pub proof fn lemma_char_index(s: Seq<char>, i: int, offset: int)
    requires
        starts_at(s, i, offset),
    ensures
        on_boundary(s, offset),
        char_index(s, offset) == i,
{
    let j = char_index(s, offset);
    if i < j {
        lemma_byte_len_grows(s, i, j);
    } else if j < i {
        lemma_byte_len_grows(s, j, i);
    }
}

/// How many characters of `s` stand before the byte offset `offset`; `None` if it falls inside a
/// character or behind the end.
pub fn find_char_index(s: &[char], offset: usize) -> (r: Option<usize>)
    ensures
        match r {
            Some(i) => on_boundary(s@, offset as int) && i == char_index(s@, offset as int) && i
                <= s@.len() && starts_at(s@, i as int, offset as int),
            None => !on_boundary(s@, offset as int),
        },
{
    let mut i: usize = 0;
    let mut at: usize = 0;
    proof {
        assert(s@.take(0) =~= Seq::<char>::empty());
    }
    while at < offset
        invariant
            i <= s@.len(),
            at <= offset,
            at == byte_len(s@.take(i as int)),
        decreases offset - at,
    {
        if i >= s.len() {
            proof {
                if on_boundary(s@, offset as int) {
                    let j = char_index(s@, offset as int);
                    lemma_byte_len_grows(s@, j, i as int);
                }
            }
            return None;
        }
        let w = width(s[i]);
        proof {
            lemma_byte_len_next(s@, i as int);
        }
        if offset - at < w {
            proof {
                if on_boundary(s@, offset as int) {
                    let j = char_index(s@, offset as int);
                    if j <= i {
                        lemma_byte_len_grows(s@, j, i as int);
                    } else {
                        lemma_byte_len_grows(s@, i + 1, j);
                    }
                }
            }
            return None;
        }
        at += w;
        i += 1;
    }
    proof {
        lemma_char_index(s@, i as int, offset as int);
    }
    Some(i)
}

/// The characters of `s` from the byte offset `from` to the byte offset `to`.
pub open spec fn byte_slice(s: Seq<char>, from: int, to: int) -> Seq<char> {
    s.subrange(char_index(s, from), char_index(s, to))
}

/// `byte_slice` cuts out what the same range of the UTF-8 bytes encodes.
pub proof fn law_slice_bytes(s: Seq<char>, from: int, to: int)
    requires
        from <= to,
        on_boundary(s, from),
        on_boundary(s, to),
    ensures
        encode_utf8(byte_slice(s, from, to)) == encode_utf8(s).subrange(from, to),
{
    let i = char_index(s, from);
    let j = char_index(s, to);
    if j < i {
        lemma_byte_len_grows(s, j, i);
    }
    let head = s.take(i);
    let mid = s.subrange(i, j);
    let tail = s.skip(j);
    assert(s =~= head + mid + tail);
    assert(s.take(j) =~= head + mid);
    lemma_encode_concat(head + mid, tail);
    lemma_encode_concat(head, mid);
    assert(encode_utf8(mid) =~= encode_utf8(s).subrange(from, to));
}

/// The byte offsets at which the lines of `s` begin.
pub open spec fn line_starts(s: Seq<char>) -> Seq<int>
    decreases s.len(),
{
    if s.len() == 0 {
        seq![0]
    } else if s.last() == '\n' {
        line_starts(s.drop_last()).push(byte_len(s) as int)
    } else {
        line_starts(s.drop_last())
    }
}

/// The numbers that `v` holds.
pub open spec fn numbers(v: Seq<usize>) -> Seq<int> {
    Seq::new(v.len(), |i: int| v[i] as int)
}

/// The byte offsets at which the lines of `text` begin: at its start, and behind each line feed.
pub fn compute_line_starts(text: &str) -> (r: Vec<usize>)
    ensures
        numbers(r@) == line_starts(text@),
{
    let chars = text::chars_of(text);
    let total = text.as_bytes().len();
    let mut starts: Vec<usize> = Vec::new();
    starts.push(0);
    let mut at: usize = 0;
    let mut i: usize = 0;
    proof {
        assert(text@.take(0) =~= Seq::<char>::empty());
        assert(numbers(starts@) =~= line_starts(text@.take(0)));
    }
    while i < chars.len()
        invariant
            i <= chars@.len(),
            chars@ == text@,
            total == byte_len(text@),
            at == byte_len(text@.take(i as int)),
            numbers(starts@) == line_starts(text@.take(i as int)),
        decreases chars.len() - i,
    {
        let w = width(chars[i]);
        proof {
            lemma_byte_len_next(text@, i as int);
            lemma_byte_len_grows(text@, i + 1, text@.len() as int);
            assert(text@.take(text@.len() as int) =~= text@);
            assert(text@.take(i + 1).drop_last() =~= text@.take(i as int));
            assert(text@.take(i + 1).last() == text@[i as int]);
        }
        at += w;
        if chars[i] == '\n' {
            let ghost before = starts@;
            starts.push(at);
            assert(numbers(starts@) =~= numbers(before).push(at as int));
        }
        i += 1;
    }
    proof {
        assert(text@.take(text@.len() as int) =~= text@);
    }
    starts
}

/// The byte range that `pos` covers in a text whose lines begin at `starts`; `None` where it names
/// a line that is not there.
pub open spec fn byte_range(starts: Seq<int>, pos: SourcePos) -> Option<(int, int)> {
    if 1 <= pos.start_line <= starts.len() && 1 <= pos.end_line <= starts.len() {
        Some(
            (
                starts[pos.start_line - 1] + pos.start_column - 1,
                starts[pos.end_line - 1] + pos.end_column,
            ),
        )
    } else {
        None
    }
}

/// Whether the byte range that `pos` covers can be computed in machine integers.
pub open spec fn range_fits(starts: Seq<int>, pos: SourcePos) -> bool {
    match byte_range(starts, pos) {
        Some((from, to)) => 0 <= from < usize::MAX && to <= usize::MAX,
        None => true,
    }
}

/// The byte range that `pos` covers in a text whose lines begin at `line_starts`.
pub fn sourcepos_to_byte_range(line_starts: &Vec<usize>, pos: SourcePos) -> (r: Option<
    (usize, usize),
>)
    requires
        range_fits(numbers(line_starts@), pos),
    ensures
        match r {
            Some((from, to)) => byte_range(numbers(line_starts@), pos) == Some(
                (from as int, to as int),
            ),
            None => byte_range(numbers(line_starts@), pos) is None,
        },
{
    if pos.start_line == 0 || pos.end_line == 0 {
        return None;
    }
    if pos.start_line > line_starts.len() || pos.end_line > line_starts.len() {
        return None;
    }
    let start_offset = line_starts[pos.start_line - 1];
    let end_offset = line_starts[pos.end_line - 1];
    Some((start_offset + pos.start_column - 1, end_offset + pos.end_column))
}

} // verus!
