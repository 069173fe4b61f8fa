use vstd::prelude::*;
use vstd::slice::slice_subrange;
use vstd::utf8::*;

verus! {

/// `String::push` appends one character to the end.
pub assume_specification[ String::push ](s: &mut String, c: char)
    ensures
        final(s)@ == old(s)@.push(c),
;

/// What `String::from_utf8_lossy` makes of bytes that are no valid UTF-8: what they encode, with
/// what is no UTF-8 replaced by U+FFFD.
pub uninterp spec fn utf8_replaced(bytes: Seq<u8>) -> Seq<char>;

/// The text that `bytes` encode, with what is no UTF-8 replaced.
pub open spec fn lossy_text(bytes: Seq<u8>) -> Seq<char> {
    if valid_utf8(bytes) {
        decode_utf8(bytes)
    } else {
        utf8_replaced(bytes)
    }
}

/// Calls `String::from_utf8_lossy`. On valid UTF-8 the result is the text that the bytes encode,
/// and else it depends on the bytes alone: how many replacement characters stand for a run of
/// invalid bytes is left to the name `utf8_replaced`.
#[verifier::external_body]
pub(crate) fn decode_lossy(bytes: &[u8]) -> (r: String)
    ensures
        valid_utf8(bytes@) ==> r@ == decode_utf8(bytes@),
        !valid_utf8(bytes@) ==> r@ == utf8_replaced(bytes@),
{
    String::from_utf8_lossy(bytes).into_owned()
}

/// What the error of `String::from_utf8` for `bytes` says.
pub uninterp spec fn utf8_fault(bytes: Seq<u8>) -> Seq<char>;

/// Calls `String::from_utf8`: the text that the bytes encode if they are valid UTF-8, and else the
/// message of its error. The message depends on the bytes alone; its wording is left to the name
/// `utf8_fault`.
#[verifier::external_body]
pub(crate) fn decode_strict(bytes: Vec<u8>) -> (r: Result<String, String>)
    ensures
        match r {
            Ok(s) => valid_utf8(bytes@) && s@ == decode_utf8(bytes@),
            Err(e) => !valid_utf8(bytes@) && e@ == utf8_fault(bytes@),
        },
{
    String::from_utf8(bytes).map_err(|e| e.to_string())
}

/// What `str::to_lowercase` makes of `s`: its characters in lower case, as Unicode defines it.
pub uninterp spec fn unicode_lower(s: Seq<char>) -> Seq<char>;

/// Calls `str::to_lowercase`. The result depends on the text alone; what Unicode's lower case of
/// a text is, is left to the name `unicode_lower`.
#[verifier::external_body]
pub(crate) fn to_lower(s: &str) -> (r: String)
    ensures
        r@ == unicode_lower(s@),
{
    s.to_lowercase()
}

/// The characters of `s`, in order.
pub fn chars_of(s: &str) -> (v: Vec<char>)
    ensures
        v@ == s@,
{
    let mut v: Vec<char> = Vec::new();
    for c in it: s.chars()
        invariant
            it.seq() == s@,
            v@ == s@.take(it.index()),
    {
        v.push(c);
    }
    proof {
        assert(s@.take(s@.len() as int) =~= s@);
    }
    v
}

/// The text made of the characters `v`, in order.
pub fn string_of(v: &[char]) -> (s: String)
    ensures
        s@ == v@,
{
    let mut s = String::new();
    let mut i: usize = 0;
    while i < v.len()
        invariant
            i <= v@.len(),
            s@ == v@.take(i as int),
        decreases v.len() - i,
    {
        s.push(v[i]);
        i += 1;
    }
    proof {
        assert(v@.take(v@.len() as int) =~= v@);
    }
    s
}

/// The UTF-8 bytes of `s`.
pub fn bytes_of(s: &str) -> (v: Vec<u8>)
    ensures
        v@ == encode_utf8(s@),
{
    copied_bytes(s.as_bytes())
}

/// A copy of `bytes`.
pub fn copied_bytes(bytes: &[u8]) -> (v: Vec<u8>)
    ensures
        v@ == bytes@,
{
    let mut v: Vec<u8> = Vec::new();
    let mut i: usize = 0;
    while i < bytes.len()
        invariant
            i <= bytes@.len(),
            v@ == bytes@.take(i as int),
        decreases bytes.len() - i,
    {
        v.push(bytes[i]);
        i += 1;
    }
    proof {
        assert(bytes@.take(bytes@.len() as int) =~= bytes@);
    }
    v
}

/// Whether `a` and `b` hold the same bytes.
pub fn same_bytes(a: &[u8], b: &[u8]) -> (r: bool)
    ensures
        r == (a@ == b@),
{
    if a.len() != b.len() {
        return false;
    }
    let mut i: usize = 0;
    while i < a.len()
        invariant
            i <= a@.len(),
            a@.len() == b@.len(),
            forall|k: int| 0 <= k < i ==> a@[k] == b@[k],
        decreases a.len() - i,
    {
        if a[i] != b[i] {
            return false;
        }
        i += 1;
    }
    assert(a@ =~= b@);
    true
}

/// Byte strings in lexicographic order: at the first difference the smaller byte comes first,
/// and a proper prefix comes before what it is a prefix of.
pub open spec fn bytes_less(a: Seq<u8>, b: Seq<u8>) -> bool
    decreases a.len(),
{
    if b.len() == 0 {
        false
    } else if a.len() == 0 {
        true
    } else if a[0] != b[0] {
        a[0] < b[0]
    } else {
        bytes_less(a.skip(1), b.skip(1))
    }
}

/// The order of texts: that of their UTF-8 bytes.
pub open spec fn text_less(a: Seq<char>, b: Seq<char>) -> bool {
    bytes_less(encode_utf8(a), encode_utf8(b))
}

proof fn lemma_bytes_less_chain(a: Seq<u8>, b: Seq<u8>, c: Seq<u8>)
    requires
        bytes_less(a, b),
        bytes_less(b, c),
    ensures
        bytes_less(a, c),
    decreases a.len(),
{
    if a.len() > 0 && a[0] == b[0] && b[0] == c[0] {
        lemma_bytes_less_chain(a.skip(1), b.skip(1), c.skip(1));
    }
}

proof fn lemma_bytes_less_strict(a: Seq<u8>)
    ensures
        !bytes_less(a, a),
    decreases a.len(),
{
    if a.len() > 0 {
        lemma_bytes_less_strict(a.skip(1));
    }
}

proof fn lemma_bytes_less_total(a: Seq<u8>, b: Seq<u8>)
    ensures
        a == b || bytes_less(a, b) || bytes_less(b, a),
    decreases a.len(),
{
    if a.len() > 0 && b.len() > 0 && a[0] == b[0] {
        lemma_bytes_less_total(a.skip(1), b.skip(1));
        if a.skip(1) == b.skip(1) {
            assert(a =~= seq![a[0]] + a.skip(1));
            assert(b =~= seq![b[0]] + b.skip(1));
        }
    } else if a.len() == 0 && b.len() == 0 {
        assert(a =~= b);
    }
}

/// The order of texts is transitive.
pub proof fn lemma_text_less_chain(a: Seq<char>, b: Seq<char>, c: Seq<char>)
    requires
        text_less(a, b),
        text_less(b, c),
    ensures
        text_less(a, c),
{
    lemma_bytes_less_chain(encode_utf8(a), encode_utf8(b), encode_utf8(c));
}

/// No text comes before itself.
pub proof fn lemma_text_less_strict(a: Seq<char>)
    ensures
        !text_less(a, a),
{
    lemma_bytes_less_strict(encode_utf8(a));
}

/// Of two different texts one comes before the other.
pub proof fn lemma_text_less_total(a: Seq<char>, b: Seq<char>)
    ensures
        a == b || text_less(a, b) || text_less(b, a),
{
    lemma_bytes_less_total(encode_utf8(a), encode_utf8(b));
    encode_utf8_decode_utf8(a);
    encode_utf8_decode_utf8(b);
}

/// Of three texts, if none comes before the next, the first does not come before the last.
pub proof fn lemma_text_rank_chain(a: Seq<char>, b: Seq<char>, c: Seq<char>)
    requires
        !text_less(a, b),
        !text_less(b, c),
    ensures
        !text_less(a, c),
{
    lemma_text_less_total(a, b);
    lemma_text_less_total(b, c);
    if text_less(a, c) {
        if text_less(b, a) {
            lemma_text_less_chain(b, a, c);
        }
    }
}

/// How one text stands to another in the order of texts.
pub enum Relation {
    Less,
    Equal,
    Greater,
}

/// Where `a` stands to `b` in the order of texts.
pub fn relate(a: &str, b: &str) -> (r: Relation)
    ensures
        r is Less <==> text_less(a@, b@),
        r is Equal <==> a@ == b@,
        r is Greater <==> text_less(b@, a@),
{
    let x = a.as_bytes();
    let y = b.as_bytes();
    let mut n: usize = 0;
    proof {
        assert(x@.skip(0) =~= x@);
        assert(y@.skip(0) =~= y@);
        encode_utf8_decode_utf8(a@);
        encode_utf8_decode_utf8(b@);
    }
    while n < x.len() && n < y.len()
        invariant
            n <= x@.len(),
            n <= y@.len(),
            x@ == encode_utf8(a@),
            y@ == encode_utf8(b@),
            x@ == y@ <==> a@ == b@,
            bytes_less(x@, y@) == bytes_less(x@.skip(n as int), y@.skip(n as int)),
            bytes_less(y@, x@) == bytes_less(y@.skip(n as int), x@.skip(n as int)),
            x@ == y@ <==> x@.skip(n as int) == y@.skip(n as int),
        decreases x.len() - n,
    {
        proof {
            assert(x@.skip(n as int).skip(1) =~= x@.skip(n + 1));
            assert(y@.skip(n as int).skip(1) =~= y@.skip(n + 1));
            assert(x@.skip(n as int)[0] == x@[n as int]);
            assert(y@.skip(n as int)[0] == y@[n as int]);
        }
        if x[n] < y[n] {
            return Relation::Less;
        }
        if y[n] < x[n] {
            return Relation::Greater;
        }
        proof {
            assert(x@.skip(n as int) =~= seq![x@[n as int]] + x@.skip(n + 1));
            assert(y@.skip(n as int) =~= seq![y@[n as int]] + y@.skip(n + 1));
        }
        n += 1;
    }
    if n < x.len() {
        assert(y@.skip(n as int).len() == 0);
        Relation::Greater
    } else if n < y.len() {
        assert(x@.skip(n as int).len() == 0);
        Relation::Less
    } else {
        assert(x@.skip(n as int) =~= y@.skip(n as int));
        Relation::Equal
    }
}

/// Whether `a` and `b` hold the same characters.
pub fn same_chars(a: &[char], b: &[char]) -> (r: bool)
    ensures
        r == (a@ == b@),
{
    if a.len() != b.len() {
        return false;
    }
    let mut i: usize = 0;
    while i < a.len()
        invariant
            i <= a@.len(),
            a@.len() == b@.len(),
            forall|k: int| 0 <= k < i ==> a@[k] == b@[k],
        decreases a.len() - i,
    {
        if a[i] != b[i] {
            return false;
        }
        i += 1;
    }
    assert(a@ =~= b@);
    true
}

/// Whether `a` and `b` are the same text.
pub fn same_text(a: &str, b: &str) -> (r: bool)
    ensures
        r == (a@ == b@),
{
    match relate(a, b) {
        Relation::Equal => true,
        _ => false,
    }
}

/// Whether `s` begins with `p`.
pub fn has_prefix(s: &[char], p: &[char]) -> (r: bool)
    ensures
        r == p@.is_prefix_of(s@),
{
    if s.len() < p.len() {
        return false;
    }
    let head = slice_subrange(s, 0, p.len());
    same_chars(head, p)
}

/// Whether `s` ends with `p`.
pub fn has_suffix(s: &[char], p: &[char]) -> (r: bool)
    ensures
        r == p@.is_suffix_of(s@),
{
    if s.len() < p.len() {
        return false;
    }
    let tail = slice_subrange(s, s.len() - p.len(), s.len());
    same_chars(tail, p)
}

/// Unicode's `White_Space` property.
pub open spec fn is_space(c: char) -> bool {
    ||| '\u{9}' <= c <= '\u{d}'
    ||| c == ' '
    ||| c == '\u{85}'
    ||| c == '\u{a0}'
    ||| c == '\u{1680}'
    ||| '\u{2000}' <= c <= '\u{200a}'
    ||| c == '\u{2028}'
    ||| c == '\u{2029}'
    ||| c == '\u{202f}'
    ||| c == '\u{205f}'
    ||| c == '\u{3000}'
}

/// Whether `c` is white space.
pub fn space(c: char) -> (r: bool)
    ensures
        r == is_space(c),
{
    ('\u{9}' <= c && c <= '\u{d}') || c == ' ' || c == '\u{85}' || c == '\u{a0}' || c == '\u{1680}'
        || ('\u{2000}' <= c && c <= '\u{200a}') || c == '\u{2028}' || c == '\u{2029}'
        || c == '\u{202f}' || c == '\u{205f}' || c == '\u{3000}'
}

/// `s` without the white space at its start.
pub open spec fn trim_start(s: Seq<char>) -> Seq<char>
    decreases s.len(),
{
    if s.len() > 0 && is_space(s[0]) {
        trim_start(s.skip(1))
    } else {
        s
    }
}

/// `s` without the white space at its end.
pub open spec fn trim_end(s: Seq<char>) -> Seq<char>
    decreases s.len(),
{
    if s.len() > 0 && is_space(s.last()) {
        trim_end(s.drop_last())
    } else {
        s
    }
}

/// `s` without the white space at either end.
pub open spec fn trim(s: Seq<char>) -> Seq<char> {
    trim_end(trim_start(s))
}

/// The slice of `s` that is left when white space is taken off at both ends.
pub fn trimmed(s: &[char]) -> (r: &[char])
    ensures
        r@ == trim(s@),
{
    let mut from: usize = 0;
    proof {
        assert(s@.skip(0) =~= s@);
    }
    while from < s.len() && space(s[from])
        invariant
            from <= s@.len(),
            trim_start(s@) == trim_start(s@.skip(from as int)),
        decreases s.len() - from,
    {
        proof {
            assert(s@.skip(from as int)[0] == s@[from as int]);
            assert(s@.skip(from as int).skip(1) =~= s@.skip(from + 1));
        }
        from += 1;
    }
    let mut to: usize = s.len();
    proof {
        if from < s.len() {
            assert(s@.skip(from as int)[0] == s@[from as int]);
        }
        assert(trim_start(s@) == s@.skip(from as int));
        assert(s@.subrange(from as int, to as int) =~= s@.skip(from as int));
    }
    while from < to && space(s[to - 1])
        invariant
            from <= to <= s@.len(),
            trim(s@) == trim_end(s@.subrange(from as int, to as int)),
        decreases to,
    {
        proof {
            let cur = s@.subrange(from as int, to as int);
            assert(cur.last() == s@[to - 1]);
            assert(cur.drop_last() =~= s@.subrange(from as int, to - 1));
        }
        to -= 1;
    }
    proof {
        let cur = s@.subrange(from as int, to as int);
        if from < to {
            assert(cur.last() == s@[to - 1]);
        }
    }
    slice_subrange(s, from, to)
}

/// The index of the first `c` in `s`, or the length of `s` if there is none.
pub open spec fn first_at(s: Seq<char>, c: char) -> int
    decreases s.len(),
{
    if s.len() == 0 || s[0] == c {
        0
    } else {
        1 + first_at(s.skip(1), c)
    }
}

/// The index of the last `c` in `s`, or -1 if there is none.
pub open spec fn last_at(s: Seq<char>, c: char) -> int
    decreases s.len(),
{
    if s.len() == 0 {
        -1
    } else if s.last() == c {
        s.len() - 1
    } else {
        last_at(s.drop_last(), c)
    }
}

/// The index of a character lies within the text.
pub proof fn lemma_last_at_bounds(s: Seq<char>, c: char)
    ensures
        -1 <= last_at(s, c) < s.len(),
    decreases s.len(),
{
    if s.len() > 0 {
        lemma_last_at_bounds(s.drop_last(), c);
    }
}

/// The index of the first `c` in `s`, or the length of `s`.
pub fn find_first(s: &[char], c: char) -> (r: usize)
    ensures
        r == first_at(s@, c),
        r <= s@.len(),
        r < s@.len() ==> s@[r as int] == c,
        forall|k: int| 0 <= k < r ==> s@[k] != c,
{
    let mut i: usize = 0;
    proof {
        assert(s@.skip(0) =~= s@);
    }
    while i < s.len() && s[i] != c
        invariant
            i <= s@.len(),
            first_at(s@, c) == i + first_at(s@.skip(i as int), c),
            forall|k: int| 0 <= k < i ==> s@[k] != c,
        decreases s.len() - i,
    {
        proof {
            assert(s@.skip(i as int)[0] == s@[i as int]);
            assert(s@.skip(i as int).skip(1) =~= s@.skip(i + 1));
        }
        i += 1;
    }
    proof {
        if i < s.len() {
            assert(s@.skip(i as int)[0] == s@[i as int]);
        }
    }
    i
}

/// The index of the last `c` in `s`.
pub fn find_last(s: &[char], c: char) -> (r: Option<usize>)
    ensures
        match r {
            Some(i) => i == last_at(s@, c) && i < s@.len() && s@[i as int] == c,
            None => last_at(s@, c) == -1,
        },
{
    let mut i: usize = s.len();
    proof {
        assert(s@.take(s@.len() as int) =~= s@);
    }
    while i > 0
        invariant
            i <= s@.len(),
            last_at(s@, c) == last_at(s@.take(i as int), c),
        decreases i,
    {
        proof {
            assert(s@.take(i as int).last() == s@[i - 1]);
            assert(s@.take(i as int).drop_last() =~= s@.take(i - 1));
        }
        if s[i - 1] == c {
            return Some(i - 1);
        }
        i -= 1;
    }
    None
}

/// The lower-case form of an ASCII letter; any other character as it is.
pub open spec fn lower(c: char) -> char {
    if 'A' <= c <= 'Z' {
        ((c as u32) + 32) as char
    } else {
        c
    }
}

/// `s` with its ASCII letters in lower case.
pub open spec fn ascii_lower(s: Seq<char>) -> Seq<char> {
    Seq::new(s.len(), |i: int| lower(s[i]))
}

/// The lower-case form of an ASCII letter; any other character as it is.
pub fn lower_char(c: char) -> (r: char)
    ensures
        r == lower(c),
{
    if 'A' <= c && c <= 'Z' {
        ((c as u8) + 32) as char
    } else {
        c
    }
}

/// A copy of `s` with its ASCII letters in lower case.
pub fn lowered(s: &[char]) -> (r: Vec<char>)
    ensures
        r@ == ascii_lower(s@),
{
    let mut r: Vec<char> = Vec::new();
    let mut i: usize = 0;
    while i < s.len()
        invariant
            i <= s@.len(),
            r@ == ascii_lower(s@).take(i as int),
        decreases s.len() - i,
    {
        r.push(lower_char(s[i]));
        i += 1;
    }
    proof {
        assert(ascii_lower(s@).take(s@.len() as int) =~= ascii_lower(s@));
    }
    r
}

/// The parts of `s` between the occurrences of `c`; one part more than there are occurrences.
pub open spec fn split_on(s: Seq<char>, c: char) -> Seq<Seq<char>>
    decreases s.len(),
{
    if s.len() == 0 {
        seq![Seq::<char>::empty()]
    } else {
        let before = split_on(s.drop_last(), c);
        if s.last() == c {
            before.push(Seq::empty())
        } else {
            before.drop_last().push(before.last().push(s.last()))
        }
    }
}

/// `parts` one after the other, with `sep` between each and the next.
pub open spec fn join_with(parts: Seq<Seq<char>>, sep: Seq<char>) -> Seq<char>
    decreases parts.len(),
{
    if parts.len() == 0 {
        Seq::empty()
    } else if parts.len() == 1 {
        parts[0]
    } else {
        join_with(parts.drop_last(), sep) + sep + parts.last()
    }
}

/// The character sequences that the rows of `v` hold.
pub open spec fn rows(v: Seq<Vec<char>>) -> Seq<Seq<char>> {
    Seq::new(v.len(), |i: int| v[i]@)
}

/// The texts that the strings of `v` hold.
pub open spec fn texts(v: Seq<String>) -> Seq<Seq<char>> {
    Seq::new(v.len(), |i: int| v[i]@)
}

pub proof fn lemma_rows_push(v: Seq<Vec<char>>, row: Vec<char>)
    ensures
        rows(v.push(row)) == rows(v).push(row@),
{
    assert(rows(v.push(row)) =~= rows(v).push(row@));
}

/// A copy of `s`.
pub fn copied(s: &[char]) -> (r: Vec<char>)
    ensures
        r@ == s@,
{
    let mut r: Vec<char> = Vec::new();
    append(&mut r, s);
    r
}

/// Puts the characters of `tail` behind those of `v`.
pub fn append(v: &mut Vec<char>, tail: &[char])
    ensures
        final(v)@ == old(v)@ + tail@,
{
    let mut i: usize = 0;
    let ghost start = v@;
    while i < tail.len()
        invariant
            i <= tail@.len(),
            v@ == start + tail@.take(i as int),
        decreases tail.len() - i,
    {
        v.push(tail[i]);
        i += 1;
        proof {
            assert(tail@.take(i as int) =~= tail@.take(i - 1).push(tail@[i - 1]));
        }
    }
    proof {
        assert(tail@.take(tail@.len() as int) =~= tail@);
    }
}

pub proof fn lemma_split_nonempty(s: Seq<char>, c: char)
    ensures
        split_on(s, c).len() > 0,
    decreases s.len(),
{
    if s.len() > 0 {
        lemma_split_nonempty(s.drop_last(), c);
    }
}

/// The parts of `s` between the occurrences of `c`.
pub fn split(s: &[char], c: char) -> (r: Vec<Vec<char>>)
    ensures
        rows(r@) == split_on(s@, c),
        r@.len() > 0,
{
    let mut done: Vec<Vec<char>> = Vec::new();
    let mut part: Vec<char> = Vec::new();
    let mut i: usize = 0;
    proof {
        assert(s@.take(0) =~= Seq::<char>::empty());
        assert(rows(done@).push(part@) =~= split_on(s@.take(0), c));
    }
    while i < s.len()
        invariant
            i <= s@.len(),
            rows(done@).push(part@) == split_on(s@.take(i as int), c),
        decreases s.len() - i,
    {
        let ghost before = split_on(s@.take(i as int), c);
        proof {
            assert(s@.take(i + 1).drop_last() =~= s@.take(i as int));
            assert(s@.take(i + 1).last() == s@[i as int]);
            assert(before.last() == part@);
            assert(before.drop_last() =~= rows(done@));
        }
        if s[i] == c {
            done.push(part);
            part = Vec::new();
            proof {
                assert(rows(done@) =~= before);
                assert(rows(done@).push(part@) =~= before.push(Seq::empty()));
            }
        } else {
            part.push(s[i]);
        }
        i += 1;
    }
    proof {
        assert(s@.take(s@.len() as int) =~= s@);
    }
    let ghost old_done = done@;
    done.push(part);
    proof {
        assert(rows(done@) =~= rows(old_done).push(part@));
    }
    done
}

/// `parts` one after the other, with `sep` between each and the next.
pub fn join(parts: &Vec<Vec<char>>, sep: &[char]) -> (r: Vec<char>)
    ensures
        r@ == join_with(rows(parts@), sep@),
{
    let mut r: Vec<char> = Vec::new();
    let mut i: usize = 0;
    let ghost all = rows(parts@);
    proof {
        assert(all.take(0) =~= Seq::<Seq<char>>::empty());
    }
    while i < parts.len()
        invariant
            i <= parts@.len(),
            all == rows(parts@),
            r@ == join_with(all.take(i as int), sep@),
        decreases parts.len() - i,
    {
        proof {
            assert(all.take(i + 1).drop_last() =~= all.take(i as int));
            assert(all.take(i + 1).last() == parts@[i as int]@);
        }
        if i > 0 {
            append(&mut r, sep);
        }
        append(&mut r, parts[i].as_slice());
        i += 1;
        proof {
            if i == 1 {
                assert(r@ =~= all.take(1)[0]);
            }
        }
    }
    proof {
        assert(all.take(parts@.len() as int) =~= all);
    }
    r
}

/// No part of a split text holds the separator.
pub proof fn lemma_split_parts(s: Seq<char>, c: char)
    ensures
        split_on(s, c).len() > 0,
        forall|i: int| 0 <= i < split_on(s, c).len() ==> !(#[trigger] split_on(s, c)[i]).contains(c),
    decreases s.len(),
{
    if s.len() > 0 {
        lemma_split_parts(s.drop_last(), c);
        let before = split_on(s.drop_last(), c);
        assert forall|i: int| 0 <= i < split_on(s, c).len() implies !(#[trigger] split_on(
            s,
            c,
        )[i]).contains(c) by {
            if s.last() != c && i == before.len() - 1 {
                let part = split_on(s, c)[i];
                assert(part == before.last().push(s.last()));
                if part.contains(c) {
                    let k = choose|k: int| 0 <= k < part.len() && part[k] == c;
                    assert(before[before.len() - 1][k] == c);
                }
            } else if i < before.len() {
                assert(split_on(s, c)[i] == before[i]);
            }
        }
    }
}

/// Joining the parts of a split text gives the text back.
pub proof fn law_join_split(s: Seq<char>, c: char)
    ensures
        join_with(split_on(s, c), seq![c]) == s,
    decreases s.len(),
{
    if s.len() > 0 {
        let before = split_on(s.drop_last(), c);
        law_join_split(s.drop_last(), c);
        lemma_split_nonempty(s.drop_last(), c);
        let parts = split_on(s, c);
        if s.last() == c {
            assert(parts.drop_last() =~= before);
            assert(join_with(parts, seq![c]) =~= s.drop_last() + seq![c] + Seq::<char>::empty());
        } else if before.len() == 1 {
            assert(parts =~= seq![before[0].push(s.last())]);
        } else {
            assert(parts.drop_last() =~= before.drop_last());
            assert(join_with(parts, seq![c]) =~= (join_with(before.drop_last(), seq![c]) + seq![c]
                + before.last()).push(s.last()));
        }
        assert(join_with(parts, seq![c]) =~= s);
    }
}

/// A part behind a separator is split off by itself.
proof fn lemma_split_append(s: Seq<char>, part: Seq<char>, c: char)
    requires
        !part.contains(c),
    ensures
        split_on(s + seq![c] + part, c) == split_on(s, c).push(part),
    decreases part.len(),
{
    let whole = s + seq![c] + part;
    if part.len() == 0 {
        assert(whole.drop_last() =~= s);
        assert(whole.last() == c);
        assert(part =~= Seq::<char>::empty());
    } else {
        let shorter = part.drop_last();
        assert(whole.drop_last() =~= s + seq![c] + shorter);
        assert(whole.last() == part.last());
        if shorter.contains(c) {
            let k = choose|k: int| 0 <= k < shorter.len() && shorter[k] == c;
            assert(part[k] == c);
        }
        assert(part[part.len() - 1] != c);
        lemma_split_append(s, shorter, c);
        let before = split_on(whole.drop_last(), c);
        assert(before.drop_last() =~= split_on(s, c));
        assert(before.last() == shorter);
        assert(shorter.push(part.last()) =~= part);
    }
}

/// A text without the separator is its own only part.
pub proof fn lemma_split_whole(s: Seq<char>, c: char)
    requires
        !s.contains(c),
    ensures
        split_on(s, c) == seq![s],
    decreases s.len(),
{
    if s.len() == 0 {
        assert(s =~= Seq::<char>::empty());
    } else {
        let shorter = s.drop_last();
        if shorter.contains(c) {
            let k = choose|k: int| 0 <= k < shorter.len() && shorter[k] == c;
            assert(s[k] == c);
        }
        assert(s[s.len() - 1] != c);
        lemma_split_whole(shorter, c);
        assert(split_on(shorter, c).drop_last() =~= Seq::<Seq<char>>::empty());
        assert(shorter.push(s.last()) =~= s);
        assert(split_on(s, c) =~= seq![s]);
    }
}

/// Splitting joined parts, none of which holds the separator, gives the parts back.
pub proof fn law_split_join(parts: Seq<Seq<char>>, c: char)
    requires
        parts.len() > 0,
        forall|i: int| 0 <= i < parts.len() ==> !(#[trigger] parts[i]).contains(c),
    ensures
        split_on(join_with(parts, seq![c]), c) == parts,
    decreases parts.len(),
{
    if parts.len() == 1 {
        lemma_split_whole(parts[0], c);
        assert(parts =~= seq![parts[0]]);
    } else {
        let front = parts.drop_last();
        assert forall|i: int| 0 <= i < front.len() implies !(#[trigger] front[i]).contains(c) by {
            assert(front[i] == parts[i]);
        }
        law_split_join(front, c);
        assert(!parts[parts.len() - 1].contains(c));
        lemma_split_append(join_with(front, seq![c]), parts.last(), c);
        assert(front.push(parts.last()) =~= parts);
    }
}

/// Splitting is done part by part: what stands before a separator and what stands behind it.
pub proof fn lemma_split_concat(a: Seq<char>, b: Seq<char>, c: char)
    ensures
        split_on(a + seq![c] + b, c) == split_on(a, c) + split_on(b, c),
    decreases b.len(),
{
    let whole = a + seq![c] + b;
    if b.len() == 0 {
        assert(whole.drop_last() =~= a);
        assert(split_on(whole, c) =~= split_on(a, c) + split_on(b, c));
    } else {
        let shorter = b.drop_last();
        assert(whole.drop_last() =~= a + seq![c] + shorter);
        assert(whole.last() == b.last());
        lemma_split_concat(a, shorter, c);
        lemma_split_nonempty(shorter, c);
        let before = split_on(whole.drop_last(), c);
        assert(before.last() == split_on(shorter, c).last());
        assert(before.drop_last() =~= split_on(a, c) + split_on(shorter, c).drop_last());
        assert(split_on(whole, c) =~= split_on(a, c) + split_on(b, c));
    }
}

/// A tail without the separator becomes part of the last part.
pub proof fn lemma_split_tail(s: Seq<char>, tail: Seq<char>, c: char)
    requires
        !tail.contains(c),
    ensures
        split_on(s + tail, c) == split_on(s, c).drop_last().push(split_on(s, c).last() + tail),
    decreases tail.len(),
{
    lemma_split_nonempty(s, c);
    if tail.len() == 0 {
        assert(s + tail =~= s);
        assert(split_on(s, c).last() + tail =~= split_on(s, c).last());
        assert(split_on(s, c).drop_last().push(split_on(s, c).last()) =~= split_on(s, c));
    } else {
        let shorter = tail.drop_last();
        if shorter.contains(c) {
            let k = choose|k: int| 0 <= k < shorter.len() && shorter[k] == c;
            assert(tail[k] == c);
        }
        assert(tail[tail.len() - 1] != c);
        lemma_split_tail(s, shorter, c);
        assert((s + tail).drop_last() =~= s + shorter);
        assert((s + tail).last() == tail.last());
        let before = split_on(s + shorter, c);
        assert(before.last() == split_on(s, c).last() + shorter);
        assert(before.drop_last() =~= split_on(s, c).drop_last());
        assert((split_on(s, c).last() + shorter).push(tail.last()) =~= split_on(s, c).last() + tail);
    }
}

/// The decimal digits of a number.
pub open spec fn decimal(n: nat) -> Seq<char>
    decreases n,
{
    let digit = ('0' as u32 + n % 10) as char;
    if n < 10 {
        seq![digit]
    } else {
        decimal(n / 10).push(digit)
    }
}

/// The decimal digits of a number.
pub fn digits_of(n: u64) -> (r: Vec<char>)
    ensures
        r@ == decimal(n as nat),
    decreases n,
{
    let digit = (('0' as u8) + (n % 10) as u8) as char;
    let mut r = if n < 10 {
        Vec::new()
    } else {
        digits_of(n / 10)
    };
    r.push(digit);
    r
}

/// The index of the last `b` in `s`, or -1 if there is none.
pub open spec fn last_byte_at(s: Seq<u8>, b: u8) -> int
    decreases s.len(),
{
    if s.len() == 0 {
        -1
    } else if s.last() == b {
        s.len() - 1
    } else {
        last_byte_at(s.drop_last(), b)
    }
}

/// The index of the last `b` in `s`.
pub fn find_last_byte(s: &[u8], b: u8) -> (r: Option<usize>)
    ensures
        match r {
            Some(i) => i == last_byte_at(s@, b) && i < s@.len() && s@[i as int] == b,
            None => last_byte_at(s@, b) == -1,
        },
{
    let mut i: usize = s.len();
    proof {
        assert(s@.take(s@.len() as int) =~= s@);
    }
    while i > 0
        invariant
            i <= s@.len(),
            last_byte_at(s@, b) == last_byte_at(s@.take(i as int), b),
        decreases i,
    {
        proof {
            assert(s@.take(i as int).last() == s@[i - 1]);
            assert(s@.take(i as int).drop_last() =~= s@.take(i - 1));
        }
        if s[i - 1] == b {
            return Some(i - 1);
        }
        i -= 1;
    }
    None
}

/// The bytes of a text are read back as the text.
pub proof fn law_encoded_text_is_read_back(s: Seq<char>)
    ensures
        lossy_text(encode_utf8(s)) == s,
{
    encode_utf8_valid_utf8(s);
    encode_utf8_decode_utf8(s);
}

/// A sequence that was pushed to holds what it held before and what was pushed.
pub proof fn lemma_push_contains<T>(s: Seq<T>, x: T, k: T)
    ensures
        s.push(x).contains(k) <==> s.contains(k) || k == x,
{
    if s.contains(k) {
        let i = choose|i: int| 0 <= i < s.len() && s[i] == k;
        assert(s.push(x)[i] == k);
    }
    if s.push(x).contains(k) {
        let i = choose|i: int| 0 <= i < s.push(x).len() && s.push(x)[i] == k;
        if i < s.len() {
            assert(s[i] == k);
        }
    }
    assert(s.push(x)[s.len() as int] == x);
}

} // verus!
