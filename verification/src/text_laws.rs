use crate::text;
use vstd::prelude::*;
use vstd::utf8::*;

verus! {

/// Whether `places` are places among `n` things, each once and in ascending order.
pub open spec fn ascending(places: Seq<int>, n: int) -> bool {
    &&& forall|a: int| 0 <= a < places.len() ==> 0 <= #[trigger] places[a] < n
    &&& forall|a: int, b: int|
        0 <= a < b < places.len() ==> #[trigger] places[a] < #[trigger] places[b]
}

/// Places among `n` things, with `n` behind them, are places among one more.
pub proof fn lemma_ascending_push(places: Seq<int>, n: int)
    requires
        ascending(places, n),
        0 <= n,
    ensures
        ascending(places.push(n), n + 1),
        ascending(places, n + 1),
{
}

/// The first occurrence of a character: it stands there, and nowhere before.
pub proof fn law_first_at(s: Seq<char>, c: char)
    ensures
        0 <= text::first_at(s, c) <= s.len(),
        text::first_at(s, c) < s.len() ==> s[text::first_at(s, c)] == c,
        forall|k: int| 0 <= k < text::first_at(s, c) ==> #[trigger] s[k] != c,
    decreases s.len(),
{
    if s.len() > 0 && s[0] != c {
        let rest = s.skip(1);
        law_first_at(rest, c);
        assert forall|k: int| 0 <= k < text::first_at(s, c) implies #[trigger] s[k] != c by {
            if k > 0 {
                assert(rest[k - 1] == s[k]);
            }
        }
    }
}

/// The last occurrence of a character: it stands there, and nowhere behind; it is -1 only if the
/// character does not occur.
pub proof fn law_last_at(s: Seq<char>, c: char)
    ensures
        -1 <= text::last_at(s, c) < s.len(),
        text::last_at(s, c) >= 0 ==> s[text::last_at(s, c)] == c,
        forall|k: int| text::last_at(s, c) < k < s.len() ==> #[trigger] s[k] != c,
    decreases s.len(),
{
    if s.len() > 0 && s.last() != c {
        let front = s.drop_last();
        law_last_at(front, c);
        assert forall|k: int| text::last_at(s, c) < k < s.len() implies #[trigger] s[k] != c by {
            if k < front.len() {
                assert(front[k] == s[k]);
            }
        }
    }
}

/// The last occurrence of a byte: it stands there, and nowhere behind; it is -1 only if the byte
/// does not occur.
pub proof fn law_last_byte_at(s: Seq<u8>, b: u8)
    ensures
        -1 <= text::last_byte_at(s, b) < s.len(),
        text::last_byte_at(s, b) >= 0 ==> s[text::last_byte_at(s, b)] == b,
        forall|k: int| text::last_byte_at(s, b) < k < s.len() ==> #[trigger] s[k] != b,
    decreases s.len(),
{
    if s.len() > 0 && s.last() != b {
        let front = s.drop_last();
        law_last_byte_at(front, b);
        assert forall|k: int| text::last_byte_at(s, b) < k < s.len() implies #[trigger] s[k]
            != b by {
            if k < front.len() {
                assert(front[k] == s[k]);
            }
        }
    }
}

/// Behind the last `c` of a text that ends in `c` and a tail without it comes that tail.
pub proof fn lemma_last_at_behind(head: Seq<char>, c: char, tail: Seq<char>)
    requires
        !tail.contains(c),
    ensures
        text::last_at(head + seq![c] + tail, c) == head.len(),
{
    let whole = head + seq![c] + tail;
    law_last_at(whole, c);
    let i = text::last_at(whole, c);
    assert(whole[head.len() as int] == c);
    if i > head.len() {
        assert(tail[i - head.len() - 1] == c);
    }
}

/// White space, by the code points of its characters.
pub proof fn law_white_space(c: char)
    ensures
        text::is_space(c) <==> {
            let n = c as u32;
            ||| 9 <= n <= 13
            ||| n == 32
            ||| n == 133
            ||| n == 160
            ||| n == 5760
            ||| 8192 <= n <= 8202
            ||| n == 8232
            ||| n == 8233
            ||| n == 8239
            ||| n == 8287
            ||| n == 12288
        },
{
}

proof fn lemma_trim_start(s: Seq<char>) -> (a: int)
    ensures
        0 <= a <= s.len(),
        text::trim_start(s) == s.skip(a),
        forall|k: int| 0 <= k < a ==> text::is_space(#[trigger] s[k]),
        a < s.len() ==> !text::is_space(s[a]),
    decreases s.len(),
{
    if s.len() > 0 && text::is_space(s[0]) {
        let rest = s.skip(1);
        let a = lemma_trim_start(rest);
        assert(s.skip(a + 1) =~= rest.skip(a));
        assert forall|k: int| 0 <= k < a + 1 implies text::is_space(#[trigger] s[k]) by {
            if k > 0 {
                assert(rest[k - 1] == s[k]);
            }
        }
        a + 1
    } else {
        assert(s.skip(0) =~= s);
        0
    }
}

proof fn lemma_trim_end(s: Seq<char>) -> (b: int)
    ensures
        0 <= b <= s.len(),
        text::trim_end(s) == s.take(b),
        forall|k: int| b <= k < s.len() ==> text::is_space(#[trigger] s[k]),
        b > 0 ==> !text::is_space(s[b - 1]),
    decreases s.len(),
{
    if s.len() > 0 && text::is_space(s.last()) {
        let front = s.drop_last();
        let b = lemma_trim_end(front);
        assert(s.take(b) =~= front.take(b));
        assert forall|k: int| b <= k < s.len() implies text::is_space(#[trigger] s[k]) by {
            if k < front.len() {
                assert(front[k] == s[k]);
            }
        }
        b
    } else {
        assert(s.take(s.len() as int) =~= s);
        s.len() as int
    }
}

/// Trimming cuts out of a text what stands from its first to its last character that is no white
/// space: what it takes off is white space, and what it leaves neither begins nor ends with any.
pub proof fn law_trim(s: Seq<char>) -> (r: (int, int))
    ensures
        0 <= r.0 <= r.1 <= s.len(),
        text::trim(s) == s.subrange(r.0, r.1),
        forall|k: int| 0 <= k < r.0 ==> text::is_space(#[trigger] s[k]),
        forall|k: int| r.1 <= k < s.len() ==> text::is_space(#[trigger] s[k]),
        r.0 < r.1 ==> !text::is_space(s[r.0]) && !text::is_space(s[r.1 - 1]),
{
    let a = lemma_trim_start(s);
    let rest = s.skip(a);
    let b = lemma_trim_end(rest);
    assert(rest.take(b) =~= s.subrange(a, a + b));
    assert forall|k: int| a + b <= k < s.len() implies text::is_space(#[trigger] s[k]) by {
        assert(rest[k - a] == s[k]);
    }
    if b > 0 {
        assert(rest[b - 1] == s[a + b - 1]);
        if a >= s.len() {
            assert(rest.len() == 0);
        }
    }
    (a, a + b)
}

/// A text that neither begins nor ends with white space is left as it is by trimming, whatever
/// white space is put around it.
pub proof fn law_trim_takes_off_what_was_put_around(before: Seq<char>, s: Seq<char>, after: Seq<char>)
    requires
        forall|k: int| 0 <= k < before.len() ==> text::is_space(#[trigger] before[k]),
        forall|k: int| 0 <= k < after.len() ==> text::is_space(#[trigger] after[k]),
        s.len() > 0 ==> !text::is_space(s[0]) && !text::is_space(s.last()),
    ensures
        text::trim(before + s + after) == s,
{
    let whole = before + s + after;
    let (a, b) = law_trim(whole);
    let n = before.len() as int;
    let m = n + s.len();
    if s.len() > 0 {
        assert(whole[n] == s[0]);
        assert(whole[m - 1] == s.last());
        if a < n {
            assert(text::is_space(before[a]));
            assert(whole[a] == before[a]);
        }
        if b > m {
            assert(text::is_space(after[b - 1 - m]));
            assert(whole[b - 1] == after[b - 1 - m]);
        }
        assert(a <= n && m <= b);
        assert(whole.subrange(n, m) =~= s);
    } else {
        if a < b {
            if a < n {
                assert(text::is_space(before[a]));
                assert(whole[a] == before[a]);
            } else {
                assert(text::is_space(after[a - n]));
                assert(whole[a] == after[a - n]);
            }
        }
        assert(text::trim(whole) =~= s);
    }
}

/// Only the letters from A to Z have another lower-case form, 32 places further on.
pub proof fn law_lower(c: char)
    ensures
        'A' <= c <= 'Z' ==> text::lower(c) as u32 == c as u32 + 32,
        !('A' <= c <= 'Z') ==> text::lower(c) == c,
        text::lower(text::lower(c)) == text::lower(c),
{
}

/// A text in lower case has the lower-case form of each of its characters, at its place.
pub proof fn law_ascii_lower(s: Seq<char>)
    ensures
        text::ascii_lower(s).len() == s.len(),
        forall|i: int|
            0 <= i < s.len() ==> #[trigger] text::ascii_lower(s)[i] == text::lower(s[i]),
{
}

/// Joining is done part by part: one part is itself, and two runs of parts are joined by one
/// separator.
pub proof fn law_join_concat(a: Seq<Seq<char>>, b: Seq<Seq<char>>, sep: Seq<char>)
    requires
        a.len() > 0,
        b.len() > 0,
    ensures
        text::join_with(a + b, sep) == text::join_with(a, sep) + sep + text::join_with(b, sep),
        a.len() == 1 ==> text::join_with(a, sep) == a[0],
    decreases b.len(),
{
    let all = a + b;
    assert(all.drop_last() =~= a + b.drop_last());
    assert(all.last() == b.last());
    if b.len() == 1 {
        assert(a + b.drop_last() =~= a);
    } else {
        law_join_concat(a, b.drop_last(), sep);
        assert(text::join_with(all, sep) =~= text::join_with(a, sep) + sep + text::join_with(
            b,
            sep,
        ));
    }
}

/// A number is written in decimal digits: one digit stands for itself, and a digit behind a number
/// other than 0 counts ten times that number and itself.
pub proof fn law_decimal(n: nat, d: nat)
    requires
        d < 10,
    ensures
        text::decimal(d) == seq![(48 + d) as char],
        n > 0 ==> text::decimal(10 * n + d) == text::decimal(n).push((48 + d) as char),
{
    if n > 0 {
        assert((10 * n + d) / 10 == n) by (nonlinear_arith)
            requires
                d < 10,
        ;
        assert((10 * n + d) % 10 == d) by (nonlinear_arith)
            requires
                d < 10,
        ;
    }
}

/// Numbers that are written alike are the same.
pub proof fn law_decimal_is_one_to_one(a: nat, b: nat)
    requires
        text::decimal(a) == text::decimal(b),
    ensures
        a == b,
    decreases a,
{
    let x = text::decimal(a);
    let y = text::decimal(b);
    assert(x.last() == ('0' as u32 + a % 10) as char);
    assert(y.last() == ('0' as u32 + b % 10) as char);
    assert(a % 10 == b % 10);
    lemma_decimal_nonempty(a / 10);
    lemma_decimal_nonempty(b / 10);
    if a >= 10 && b >= 10 {
        assert(x.drop_last() =~= text::decimal(a / 10));
        assert(y.drop_last() =~= text::decimal(b / 10));
        law_decimal_is_one_to_one(a / 10, b / 10);
    }
}

proof fn lemma_decimal_nonempty(n: nat)
    ensures
        text::decimal(n).len() > 0,
{
}

/// The order of byte strings: they are alike up to some place, and there the first has ended or has
/// the smaller byte.
pub proof fn law_bytes_less(a: Seq<u8>, b: Seq<u8>)
    ensures
        text::bytes_less(a, b) <==> exists|k: int|
            0 <= k <= a.len() && k < b.len() && a.take(k) == #[trigger] b.take(k) && (k == a.len()
                || a[k] < b[k]),
    decreases a.len(),
{
    if text::bytes_less(a, b) {
        let k = lemma_less_place(a, b);
        assert(a.take(k) == b.take(k));
    }
    if exists|k: int|
        0 <= k <= a.len() && k < b.len() && a.take(k) == #[trigger] b.take(k) && (k == a.len()
            || a[k] < b[k]) {
        let k = choose|k: int|
            0 <= k <= a.len() && k < b.len() && a.take(k) == #[trigger] b.take(k) && (k == a.len()
                || a[k] < b[k]);
        lemma_less_from_place(a, b, k);
    }
}

proof fn lemma_less_place(a: Seq<u8>, b: Seq<u8>) -> (k: int)
    requires
        text::bytes_less(a, b),
    ensures
        0 <= k <= a.len(),
        k < b.len(),
        a.take(k) == b.take(k),
        k == a.len() || a[k] < b[k],
    decreases a.len(),
{
    if a.len() == 0 || a[0] != b[0] {
        assert(a.take(0) =~= b.take(0));
        0
    } else {
        let k = lemma_less_place(a.skip(1), b.skip(1));
        assert(a.take(k + 1) =~= seq![a[0]] + a.skip(1).take(k));
        assert(b.take(k + 1) =~= seq![b[0]] + b.skip(1).take(k));
        k + 1
    }
}

proof fn lemma_less_from_place(a: Seq<u8>, b: Seq<u8>, k: int)
    requires
        0 <= k <= a.len(),
        k < b.len(),
        a.take(k) == b.take(k),
        k == a.len() || a[k] < b[k],
    ensures
        text::bytes_less(a, b),
    decreases a.len(),
{
    if k > 0 {
        assert(a[0] == a.take(k)[0]);
        assert(b[0] == b.take(k)[0]);
        assert(a.skip(1).take(k - 1) =~= a.take(k).skip(1));
        assert(b.skip(1).take(k - 1) =~= b.take(k).skip(1));
        lemma_less_from_place(a.skip(1), b.skip(1), k - 1);
    }
}

/// Texts are in the order of their UTF-8 bytes.
pub proof fn law_text_less(a: Seq<char>, b: Seq<char>)
    ensures
        text::text_less(a, b) <==> exists|k: int|
            0 <= k <= encode_utf8(a).len() && k < encode_utf8(b).len() && encode_utf8(a).take(k)
                == #[trigger] encode_utf8(b).take(k) && (k == encode_utf8(a).len()
                || encode_utf8(a)[k] < encode_utf8(b)[k]),
{
    law_bytes_less(encode_utf8(a), encode_utf8(b));
}

/// Bytes that are valid UTF-8 are read as what they encode.
pub proof fn law_valid_bytes_are_decoded(bytes: Seq<u8>)
    ensures
        valid_utf8(bytes) ==> text::lossy_text(bytes) == decode_utf8(bytes),
        !valid_utf8(bytes) ==> text::lossy_text(bytes) == text::utf8_replaced(bytes),
{
}

/// What is held of the strings and of the rows of a list is what each of them holds, in order.
pub proof fn law_text_views(strings: Seq<String>, rows: Seq<Vec<char>>, i: int)
    ensures
        text::texts(strings).len() == strings.len(),
        text::rows(rows).len() == rows.len(),
        0 <= i < strings.len() ==> text::texts(strings)[i] == strings[i]@,
        0 <= i < rows.len() ==> text::rows(rows)[i] == rows[i]@,
{
}

} // verus!
