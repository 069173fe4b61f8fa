use crate::link_path;
use crate::string_map::StringMap;
use crate::text;
use vstd::prelude::*;
use vstd::slice::slice_subrange;

verus! {

/// The value of a hexadecimal digit, given as an ASCII byte.
pub open spec fn hex_value(byte: u8) -> Option<u8> {
    if '0' as u8 <= byte <= '9' as u8 {
        Some((byte - '0' as u8) as u8)
    } else if 'a' as u8 <= byte <= 'f' as u8 {
        Some((byte - 'a' as u8 + 10) as u8)
    } else if 'A' as u8 <= byte <= 'F' as u8 {
        Some((byte - 'A' as u8 + 10) as u8)
    } else {
        None
    }
}

/// The value of a hexadecimal digit, given as an ASCII byte.
pub fn hex_nibble(byte: u8) -> (r: Option<u8>)
    ensures
        r == hex_value(byte),
{
    if '0' as u8 <= byte && byte <= '9' as u8 {
        Some(byte - '0' as u8)
    } else if 'a' as u8 <= byte && byte <= 'f' as u8 {
        Some(byte - 'a' as u8 + 10)
    } else if 'A' as u8 <= byte && byte <= 'F' as u8 {
        Some(byte - 'A' as u8 + 10)
    } else {
        None
    }
}

/// Whether `bytes` begins with a percent sign and two hexadecimal digits.
pub open spec fn starts_with_escape(bytes: Seq<u8>) -> bool {
    &&& bytes.len() > 2
    &&& bytes[0] == '%' as u8
    &&& hex_value(bytes[1]) is Some
    &&& hex_value(bytes[2]) is Some
}

/// `bytes` with each percent sign and two hexadecimal digits replaced by the byte they stand for.
pub open spec fn percent_decoded(bytes: Seq<u8>) -> Seq<u8>
    decreases bytes.len(),
{
    if bytes.len() == 0 {
        Seq::empty()
    } else if starts_with_escape(bytes) {
        seq![(hex_value(bytes[1])->0 * 16 + hex_value(bytes[2])->0) as u8] + percent_decoded(
            bytes.skip(3),
        )
    } else {
        seq![bytes[0]] + percent_decoded(bytes.skip(1))
    }
}

/// `value` with its percent escapes decoded; bytes that are then no UTF-8 are replaced.
pub fn decode_percent_sequences(value: &str) -> (r: String)
    ensures
        r@ == text::lossy_text(percent_decoded(vstd::utf8::encode_utf8(value@))),
{
    let bytes = value.as_bytes();
    let mut out: Vec<u8> = Vec::new();
    let mut i: usize = 0;
    let ghost all = percent_decoded(bytes@);
    proof {
        assert(bytes@.skip(0) =~= bytes@);
        assert(out@ + all =~= all);
    }
    while i < bytes.len()
        invariant
            i <= bytes@.len(),
            out@ + percent_decoded(bytes@.skip(i as int)) == all,
        decreases bytes.len() - i,
    {
        let ghost rest = bytes@.skip(i as int);
        let ghost before = out@;
        proof {
            assert(rest[0] == bytes@[i as int]);
            assert(rest.skip(1) =~= bytes@.skip(i + 1));
        }
        if bytes[i] == '%' as u8 && bytes.len() - i > 2 {
            proof {
                assert(rest[1] == bytes@[i + 1]);
                assert(rest[2] == bytes@[i + 2]);
                assert(rest.skip(3) =~= bytes@.skip(i + 3));
            }
            if let (Some(high), Some(low)) = (hex_nibble(bytes[i + 1]), hex_nibble(bytes[i + 2])) {
                let byte: u8 = high * 16 + low;
                out.push(byte);
                i += 3;
                proof {
                    assert(out@ + percent_decoded(bytes@.skip(i as int)) =~= before + (seq![byte]
                        + percent_decoded(rest.skip(3))));
                }
                continue ;
            }
        }
        out.push(bytes[i]);
        i += 1;
        proof {
            assert(!starts_with_escape(rest));
            assert(out@ + percent_decoded(bytes@.skip(i as int)) =~= before + (seq![rest[0]]
                + percent_decoded(rest.skip(1))));
        }
    }
    proof {
        assert(out@ + percent_decoded(bytes@.skip(i as int)) =~= out@);
    }
    text::decode_lossy(out.as_slice())
}

/// Whether a link leads to the web: it begins with `http://` or `https://`, in any case.
pub open spec fn external_url(value: Seq<char>) -> bool {
    "http://"@.is_prefix_of(text::ascii_lower(value)) || "https://"@.is_prefix_of(
        text::ascii_lower(value),
    )
}

/// Whether a link leads to the web: it begins with `http://` or `https://`, in any case.
pub fn is_external_url(value: &str) -> (r: bool)
    ensures
        r == external_url(value@),
{
    let chars = text::chars_of(value);
    let low = text::lowered(chars.as_slice());
    let http = text::chars_of("http://");
    let https = text::chars_of("https://");
    text::has_prefix(low.as_slice(), http.as_slice()) || text::has_prefix(
        low.as_slice(),
        https.as_slice(),
    )
}

/// What stands before the first `c` in `s`; all of `s` if there is none.
pub open spec fn before_first(s: Seq<char>, c: char) -> Seq<char> {
    s.take(text::first_at(s, c))
}

/// The slice of `s` before its first `c`.
fn cut_at(s: &[char], c: char) -> (r: &[char])
    ensures
        r@ == before_first(s@, c),
{
    let i = text::find_first(s, c);
    assert(s@.subrange(0, i as int) =~= s@.take(i as int));
    slice_subrange(s, 0, i)
}

/// A decoded link destination without its fragment, its query and the white space around it.
pub open spec fn href_path(decoded: Seq<char>) -> Seq<char> {
    text::trim(before_first(before_first(decoded, '#'), '?'))
}

/// The note path that the destination of a Markdown link holds; `None` for one that is empty,
/// leads to the web or names no `.md` file.
pub open spec fn internal_markdown_target(raw_href: Seq<char>) -> Option<Seq<char>> {
    let trimmed = text::trim(raw_href);
    let path = href_path(
        text::lossy_text(percent_decoded(vstd::utf8::encode_utf8(trimmed))),
    );
    if trimmed.len() == 0 || external_url(trimmed) || path.len() == 0
        || !link_path::has_md_extension(path) {
        None
    } else {
        Some(path)
    }
}

/// A decoded link destination cut down to the `.md` path it holds.
pub fn internal_path_of(decoded: &str) -> (r: Option<String>)
    ensures
        match r {
            Some(p) => p@ == href_path(decoded@) && p@.len() > 0 && link_path::has_md_extension(
                p@,
            ),
            None => href_path(decoded@).len() == 0 || !link_path::has_md_extension(
                href_path(decoded@),
            ),
        },
{
    let chars = text::chars_of(decoded);
    let path = text::trimmed(cut_at(cut_at(chars.as_slice(), '#'), '?'));
    if path.len() == 0 || !link_path::ends_in_md(path) {
        None
    } else {
        Some(text::string_of(path))
    }
}

/// The note path that the destination of a Markdown link holds.
pub fn parse_internal_markdown_target(raw_href: &str) -> (r: Option<String>)
    ensures
        match r {
            Some(p) => internal_markdown_target(raw_href@) == Some(p@),
            None => internal_markdown_target(raw_href@) is None,
        },
{
    let chars = text::chars_of(raw_href);
    let trimmed = text::string_of(text::trimmed(chars.as_slice()));
    if trimmed.as_str().is_empty() || is_external_url(trimmed.as_str()) {
        return None;
    }
    let href = decode_percent_sequences(trimmed.as_str());
    internal_path_of(href.as_str())
}

/// Whether a Markdown link destination has to stand in angle brackets: it holds white space.
pub fn markdown_destination_needs_angle_brackets(value: &str) -> (r: bool)
    ensures
        r == exists|i: int| 0 <= i < value@.len() && text::is_space(#[trigger] value@[i]),
{
    let chars = text::chars_of(value);
    let mut i: usize = 0;
    while i < chars.len()
        invariant
            i <= chars@.len(),
            chars@ == value@,
            forall|k: int| 0 <= k < i ==> !text::is_space(#[trigger] value@[k]),
        decreases chars.len() - i,
    {
        if text::space(chars[i]) {
            assert(text::is_space(value@[i as int]));
            return true;
        }
        i += 1;
    }
    false
}

/// What a wiki link names once the white space around it and its fragment are taken off.
pub open spec fn wiki_name(raw_target: Seq<char>) -> Seq<char> {
    text::trim(before_first(text::trim(raw_target), '#'))
}

/// The target that a wiki link holds; `None` for one that is empty or leads to the web.
pub open spec fn wiki_link_target(raw_target: Seq<char>) -> Option<Seq<char>> {
    let name = wiki_name(raw_target);
    let decoded = text::lossy_text(percent_decoded(vstd::utf8::encode_utf8(name)));
    if text::trim(raw_target).len() == 0 || name.len() == 0 || decoded.len() == 0 || external_url(
        decoded,
    ) {
        None
    } else {
        Some(decoded)
    }
}

/// The target that a wiki link holds.
pub fn parse_wiki_link_target(raw_target: &str) -> (r: Option<String>)
    ensures
        match r {
            Some(p) => wiki_link_target(raw_target@) == Some(p@),
            None => wiki_link_target(raw_target@) is None,
        },
{
    let chars = text::chars_of(raw_target);
    let trimmed = text::trimmed(chars.as_slice());
    if trimmed.len() == 0 {
        return None;
    }
    let before_fragment = text::trimmed(cut_at(trimmed, '#'));
    if before_fragment.len() == 0 {
        return None;
    }
    let name = text::string_of(before_fragment);
    let decoded = decode_percent_sequences(name.as_str());
    if decoded.as_str().is_empty() || is_external_url(decoded.as_str()) {
        return None;
    }
    Some(decoded)
}

/// How many backslashes stand at the end of `s`.
pub open spec fn trailing_backslashes(s: Seq<char>) -> nat
    decreases s.len(),
{
    if s.len() > 0 && s.last() == '\\' {
        1 + trailing_backslashes(s.drop_last())
    } else {
        0
    }
}

/// Whether `s` ends in an exclamation mark that no backslash escapes.
pub open spec fn unescaped_bang(s: Seq<char>) -> bool {
    s.len() > 0 && s.last() == '!' && trailing_backslashes(s.drop_last()) % 2 == 0
}

/// Whether `value` ends in an exclamation mark that no backslash escapes.
pub fn ends_with_unescaped_bang(value: &str) -> (r: bool)
    ensures
        r == unescaped_bang(value@),
{
    let chars = text::chars_of(value);
    if chars.len() == 0 || chars[chars.len() - 1] != '!' {
        return false;
    }
    let mut slash_count: usize = 0;
    let mut index: usize = chars.len() - 1;
    proof {
        assert(value@.drop_last() =~= value@.take(index as int));
    }
    while index > 0 && chars[index - 1] == '\\'
        invariant
            index + slash_count < chars.len(),
            chars@ == value@,
            trailing_backslashes(value@.drop_last()) == slash_count + trailing_backslashes(
                value@.take(index as int),
            ),
        decreases index,
    {
        proof {
            assert(value@.take(index as int).last() == value@[index - 1]);
            assert(value@.take(index as int).drop_last() =~= value@.take(index - 1));
        }
        slash_count += 1;
        index -= 1;
    }
    proof {
        if index > 0 {
            assert(value@.take(index as int).last() == value@[index - 1]);
        }
    }
    slash_count % 2 == 0
}

/// The items of `s` without those that came before.
pub open spec fn first_occurrences(s: Seq<Seq<char>>) -> Seq<Seq<char>>
    decreases s.len(),
{
    if s.len() == 0 {
        Seq::empty()
    } else if s.drop_last().contains(s.last()) {
        first_occurrences(s.drop_last())
    } else {
        first_occurrences(s.drop_last()).push(s.last())
    }
}

/// `values` without those that came before; the others keep their order.
pub fn dedupe_preserve_order(values: Vec<String>) -> (r: Vec<String>)
    ensures
        text::texts(r@) == first_occurrences(text::texts(values@)),
{
    let mut seen: StringMap<()> = StringMap::new();
    let mut out: Vec<String> = Vec::new();
    let ghost all = text::texts(values@);
    let mut i: usize = 0;
    proof {
        assert(all.take(0) =~= Seq::<Seq<char>>::empty());
        assert(text::texts(out@) =~= Seq::<Seq<char>>::empty());
    }
    while i < values.len()
        invariant
            i <= values@.len(),
            all == text::texts(values@),
            text::texts(out@) == first_occurrences(all.take(i as int)),
            forall|k: Seq<char>| #[trigger] seen@.contains_key(k) <==> all.take(i as int).contains(k),
        decreases values.len() - i,
    {
        let ghost now = all.take(i + 1);
        let ghost before = out@;
        proof {
            assert(now.drop_last() =~= all.take(i as int));
            assert(now.last() == values@[i as int]@);
        }
        if !seen.contains_key(values[i].as_str()) {
            seen.insert(values[i].clone(), ());
            out.push(values[i].clone());
            proof {
                assert(text::texts(out@) =~= text::texts(before).push(values@[i as int]@));
            }
        }
        proof {
            assert forall|k: Seq<char>| #[trigger] seen@.contains_key(k) <==> now.contains(k) by {
                lemma_contains_last(now, k);
            }
        }
        i += 1;
    }
    proof {
        assert(all.take(values@.len() as int) =~= all);
    }
    out
}

pub proof fn lemma_contains_last(s: Seq<Seq<char>>, k: Seq<char>)
    requires
        s.len() > 0,
    ensures
        s.contains(k) <==> s.drop_last().contains(k) || k == s.last(),
{
    assert(s =~= s.drop_last().push(s.last()));
    text::lemma_push_contains(s.drop_last(), s.last(), k);
}

/// A link that leads to the web, with the text that it shows.
#[derive(Debug, PartialEq, Eq)]
pub struct ExternalLink {
    pub url: String,
    pub text: String,
}

impl Clone for ExternalLink {
    fn clone(&self) -> (r: Self)
        ensures
            r == *self,
    {
        ExternalLink { url: self.url.clone(), text: self.text.clone() }
    }
}

/// The address and the text of an external link.
pub struct ExternalLinkView {
    pub url: Seq<char>,
    pub text: Seq<char>,
}

impl View for ExternalLink {
    type V = ExternalLinkView;

    open spec fn view(&self) -> ExternalLinkView {
        ExternalLinkView { url: self.url@, text: self.text@ }
    }
}

/// What the external links of `v` hold.
pub open spec fn external_views(v: Seq<ExternalLink>) -> Seq<ExternalLinkView> {
    Seq::new(v.len(), |i: int| v[i]@)
}

/// Whether one of `links` has the address `url`.
pub open spec fn has_url(links: Seq<ExternalLinkView>, url: Seq<char>) -> bool {
    exists|i: int| 0 <= i < links.len() && (#[trigger] links[i]).url == url
}

/// The links of `s` without those whose address came before.
pub open spec fn first_by_url(s: Seq<ExternalLinkView>) -> Seq<ExternalLinkView>
    decreases s.len(),
{
    if s.len() == 0 {
        Seq::empty()
    } else if has_url(s.drop_last(), s.last().url) {
        first_by_url(s.drop_last())
    } else {
        first_by_url(s.drop_last()).push(s.last())
    }
}

/// `values` without those whose address came before; the others keep their order.
pub fn dedupe_external_links(values: Vec<ExternalLink>) -> (r: Vec<ExternalLink>)
    ensures
        external_views(r@) == first_by_url(external_views(values@)),
{
    let mut seen: StringMap<()> = StringMap::new();
    let mut out: Vec<ExternalLink> = Vec::new();
    let ghost all = external_views(values@);
    let mut i: usize = 0;
    proof {
        assert(all.take(0) =~= Seq::<ExternalLinkView>::empty());
        assert(external_views(out@) =~= Seq::<ExternalLinkView>::empty());
    }
    while i < values.len()
        invariant
            i <= values@.len(),
            all == external_views(values@),
            external_views(out@) == first_by_url(all.take(i as int)),
            forall|k: Seq<char>| #[trigger]
                seen@.contains_key(k) <==> has_url(all.take(i as int), k),
        decreases values.len() - i,
    {
        let ghost now = all.take(i + 1);
        let ghost before = out@;
        proof {
            assert(now.drop_last() =~= all.take(i as int));
            assert(now.last() == values@[i as int]@);
        }
        if !seen.contains_key(values[i].url.as_str()) {
            seen.insert(values[i].url.clone(), ());
            out.push(values[i].clone());
            proof {
                assert(external_views(out@) =~= external_views(before).push(values@[i as int]@));
            }
        }
        proof {
            assert forall|k: Seq<char>| #[trigger]
                seen@.contains_key(k) <==> has_url(now, k) by {
                let shorter = now.drop_last();
                if has_url(now, k) {
                    let j = choose|j: int| 0 <= j < now.len() && (#[trigger] now[j]).url == k;
                    if j < shorter.len() {
                        assert(shorter[j].url == k);
                    }
                }
                if has_url(shorter, k) {
                    let j = choose|j: int|
                        0 <= j < shorter.len() && (#[trigger] shorter[j]).url == k;
                    assert(now[j].url == k);
                }
                assert(now[now.len() - 1] == now.last());
            }
        }
        i += 1;
    }
    proof {
        assert(all.take(values@.len() as int) =~= all);
    }
    out
}

/// A percent sign in the bytes of a character is the character `%`.
proof fn lemma_percent_byte(c: char, i: int)
    requires
        0 <= i < vstd::utf8::encode_scalar(c as u32).len(),
        vstd::utf8::encode_scalar(c as u32)[i] == '%' as u8,
    ensures
        c == '%',
{
    let v = c as u32;
    vstd::utf8::char_is_scalar(c);
    assert((0xC0u8 | ((v >> 6) & 0x1F) as u8) >= 0x80) by (bit_vector);
    assert((0xE0u8 | ((v >> 12) & 0x0F) as u8) >= 0x80) by (bit_vector);
    assert((0xF0u8 | ((v >> 18) & 0x7) as u8) >= 0x80) by (bit_vector);
    assert((0x80u8 | (v & 0x3F) as u8) >= 0x80) by (bit_vector);
    assert((0x80u8 | ((v >> 6) & 0x3F) as u8) >= 0x80) by (bit_vector);
    assert((0x80u8 | ((v >> 12) & 0x3F) as u8) >= 0x80) by (bit_vector);
    assert(v <= 0x7F ==> (v & 0x7F) as u8 == v) by (bit_vector);
}

proof fn lemma_percent_among_bytes(s: Seq<char>, i: int)
    requires
        0 <= i < vstd::utf8::encode_utf8(s).len(),
        vstd::utf8::encode_utf8(s)[i] == '%' as u8,
    ensures
        s.contains('%'),
    decreases s.len(),
{
    if s.len() > 0 {
        let first = vstd::utf8::encode_scalar(s[0] as u32);
        if i < first.len() {
            lemma_percent_byte(s[0], i);
            assert(s[0] == '%');
        } else {
            let rest = s.drop_first();
            lemma_percent_among_bytes(rest, i - first.len());
            let k = choose|k: int| 0 <= k < rest.len() && rest[k] == '%';
            assert(s[k + 1] == '%');
        }
    }
}

/// Whether a text holds a percent sign with two hexadecimal digits behind it.
pub open spec fn holds_escape(s: Seq<char>) -> bool {
    exists|i: int|
        0 <= i < vstd::utf8::encode_utf8(s).len() && starts_with_escape(
            #[trigger] vstd::utf8::encode_utf8(s).skip(i),
        )
}

proof fn lemma_nothing_to_decode(bytes: Seq<u8>)
    requires
        forall|i: int| 0 <= i < bytes.len() ==> !starts_with_escape(#[trigger] bytes.skip(i)),
    ensures
        percent_decoded(bytes) == bytes,
    decreases bytes.len(),
{
    if bytes.len() > 0 {
        let rest = bytes.skip(1);
        assert(bytes.skip(0) =~= bytes);
        assert forall|i: int| 0 <= i < rest.len() implies !starts_with_escape(
            #[trigger] rest.skip(i),
        ) by {
            assert(rest.skip(i) =~= bytes.skip(i + 1));
        }
        lemma_nothing_to_decode(rest);
        assert(seq![bytes[0]] + rest =~= bytes);
    }
}

/// A text without escapes stands for itself.
pub proof fn law_text_without_escapes_decodes_to_itself(s: Seq<char>)
    requires
        !holds_escape(s),
    ensures
        text::lossy_text(percent_decoded(vstd::utf8::encode_utf8(s))) == s,
{
    lemma_nothing_to_decode(vstd::utf8::encode_utf8(s));
    text::law_encoded_text_is_read_back(s);
}

/// A text without percent signs holds no escapes.
pub proof fn law_text_without_percent_signs_holds_no_escape(s: Seq<char>)
    requires
        !s.contains('%'),
    ensures
        !holds_escape(s),
{
    let bytes = vstd::utf8::encode_utf8(s);
    assert forall|i: int| 0 <= i < bytes.len() implies !starts_with_escape(
        #[trigger] bytes.skip(i),
    ) by {
        assert(bytes.skip(i)[0] == bytes[i]);
        if bytes[i] == '%' as u8 {
            lemma_percent_among_bytes(s, i);
        }
    }
}

proof fn lemma_cut_nowhere(s: Seq<char>, c: char)
    requires
        !s.contains(c),
    ensures
        before_first(s, c) == s,
        text::first_at(s, c) == s.len(),
    decreases s.len(),
{
    if s.len() > 0 {
        let rest = s.skip(1);
        assert(s[0] != c);
        if rest.contains(c) {
            let k = choose|k: int| 0 <= k < rest.len() && rest[k] == c;
            assert(s[k + 1] == c);
        }
        lemma_cut_nowhere(rest, c);
    }
    assert(s.take(s.len() as int) =~= s);
}

/// Whether a text, written as the target of a link, is read as it stands: it holds no escape and no
/// `#`, has no white space at its ends, and does not lead to the web.
pub open spec fn stands_for_itself(s: Seq<char>) -> bool {
    &&& s.len() > 0
    &&& !holds_escape(s)
    &&& !s.contains('#')
    &&& text::trim(s) == s
    &&& !external_url(s)
}

/// Such a text is the target of a wiki link that holds it, and of a Markdown link too if it ends in
/// `.md` and holds no `?`.
pub proof fn law_plain_target_is_read_as_it_stands(s: Seq<char>)
    requires
        stands_for_itself(s),
    ensures
        wiki_link_target(s) == Some(s),
        link_path::has_md_extension(s) && !s.contains('?') ==> internal_markdown_target(s) == Some(
            s,
        ),
{
    lemma_cut_nowhere(s, '#');
    if !s.contains('?') {
        lemma_cut_nowhere(s, '?');
    }
    law_text_without_escapes_decodes_to_itself(s);
}

} // verus!
