use crate::text;
use crate::vault_path;
use vstd::prelude::*;
use vstd::slice::slice_subrange;

verus! {

/// An image that is to be stored for a note.
#[derive(Debug)]
pub struct WriteImageAssetArgs {
    pub vault_id: String,
    pub note_path: String,
    pub mime_type: String,
    pub file_name: Option<String>,
    pub bytes: Vec<u8>,
    pub custom_filename: Option<String>,
    pub attachment_folder: Option<String>,
}

/// The file extension for images of a media type.
pub open spec fn extension_for(mime_type: Seq<char>) -> Seq<char> {
    let low = text::ascii_lower(mime_type);
    if low == "image/jpeg"@ {
        "jpg"@
    } else if low == "image/gif"@ {
        "gif"@
    } else if low == "image/webp"@ {
        "webp"@
    } else if low == "image/bmp"@ {
        "bmp"@
    } else if low == "image/svg+xml"@ {
        "svg"@
    } else {
        "png"@
    }
}

/// The extension for an image: that of its file name `leaf` in lower case, and where it has none,
/// that of its media type.
pub open spec fn image_ext(mime_type: Seq<char>, leaf: Option<Seq<char>>) -> Seq<char> {
    match vault_path::leaf_extension(leaf) {
        Some(ext) => if ext.len() > 0 {
            text::ascii_lower(ext)
        } else {
            extension_for(mime_type)
        },
        None => extension_for(mime_type),
    }
}

/// The extension for an image with a media type and the file name `leaf`.
pub fn extension_for_leaf(mime_type: &str, leaf: &Option<String>) -> (r: String)
    ensures
        r@ == image_ext(mime_type@, vault_path::optional_text(*leaf)),
{
    if let Some(ext) = vault_path::file_extension(leaf) {
        let chars = text::chars_of(ext.as_str());
        if chars.len() > 0 {
            let low = text::lowered(chars.as_slice());
            return text::string_of(low.as_slice());
        }
    }
    let chars = text::chars_of(mime_type);
    let low = text::lowered(chars.as_slice());
    let mime = text::string_of(low.as_slice());
    let ext = if text::same_text(mime.as_str(), "image/jpeg") {
        "jpg"
    } else if text::same_text(mime.as_str(), "image/gif") {
        "gif"
    } else if text::same_text(mime.as_str(), "image/webp") {
        "webp"
    } else if text::same_text(mime.as_str(), "image/bmp") {
        "bmp"
    } else if text::same_text(mime.as_str(), "image/svg+xml") {
        "svg"
    } else {
        "png"
    };
    ext.to_owned()
}

/// Whether `leaf` can be the file name that `path`, if there is one, leads to.
pub open spec fn reads_optional(path: Option<Seq<char>>, leaf: Option<Seq<char>>) -> bool {
    match path {
        Some(p) => vault_path::reads_leaf(p, leaf),
        None => leaf is None,
    }
}

/// The file name that `path`, if there is one, leads to, as this machine reads it.
fn optional_leaf(path: &Option<String>) -> (r: Option<String>)
    ensures
        reads_optional(vault_path::optional_text(*path), vault_path::optional_text(r)),
{
    match path {
        Some(p) => vault_path::path_file_name(p.as_str()),
        None => None,
    }
}

/// The extension for an image with a media type and, perhaps, a file name.
pub fn image_extension(mime_type: &str, file_name: &Option<String>) -> (r: String)
    ensures
        exists|leaf: Option<Seq<char>>| #[trigger]
            reads_optional(vault_path::optional_text(*file_name), leaf) && r@ == image_ext(
                mime_type@,
                leaf,
            ),
{
    let leaf = optional_leaf(file_name);
    extension_for_leaf(mime_type, &leaf)
}

/// Whether a character stays in the stem of a generated file name.
pub open spec fn plain(c: char) -> bool {
    'a' <= c <= 'z' || 'A' <= c <= 'Z' || '0' <= c <= '9' || c == '_' || c == '-'
}

fn is_plain(c: char) -> (r: bool)
    ensures
        r == plain(c),
{
    ('a' <= c && c <= 'z') || ('A' <= c && c <= 'Z') || ('0' <= c && c <= '9') || c == '_' || c
        == '-'
}

/// `s` in lower case with each run of other characters replaced by a dash, unless one stands
/// before it.
pub open spec fn dashed(s: Seq<char>) -> Seq<char>
    decreases s.len(),
{
    if s.len() == 0 {
        Seq::empty()
    } else {
        let before = dashed(s.drop_last());
        if plain(s.last()) {
            before.push(text::lower(s.last()))
        } else if before.len() > 0 && before.last() == '-' {
            before
        } else {
            before.push('-')
        }
    }
}

/// `s` without the dashes at its start.
pub open spec fn without_first_dashes(s: Seq<char>) -> Seq<char>
    decreases s.len(),
{
    if s.len() > 0 && s[0] == '-' {
        without_first_dashes(s.skip(1))
    } else {
        s
    }
}

/// `s` without the dashes at its end.
pub open spec fn without_last_dashes(s: Seq<char>) -> Seq<char>
    decreases s.len(),
{
    if s.len() > 0 && s.last() == '-' {
        without_last_dashes(s.drop_last())
    } else {
        s
    }
}

/// The stem of a generated file name.
pub open spec fn clean_stem(value: Seq<char>) -> Seq<char> {
    let core = without_last_dashes(without_first_dashes(dashed(value)));
    if core.len() == 0 {
        "image"@
    } else {
        core
    }
}

/// The stem of a generated file name: lower-case letters, digits, dashes and underscores.
pub fn sanitize_stem(value: &str) -> (r: String)
    ensures
        r@ == clean_stem(value@),
{
    let chars = text::chars_of(value);
    let mut out: Vec<char> = Vec::new();
    let mut i: usize = 0;
    proof {
        assert(value@.take(0) =~= Seq::<char>::empty());
    }
    while i < chars.len()
        invariant
            i <= chars@.len(),
            chars@ == value@,
            out@ == dashed(value@.take(i as int)),
        decreases chars.len() - i,
    {
        proof {
            assert(value@.take(i + 1).drop_last() =~= value@.take(i as int));
            assert(value@.take(i + 1).last() == value@[i as int]);
        }
        let c = chars[i];
        if is_plain(c) {
            out.push(text::lower_char(c));
        } else if out.len() == 0 || out[out.len() - 1] != '-' {
            out.push('-');
        }
        i += 1;
    }
    proof {
        assert(value@.take(chars@.len() as int) =~= value@);
        assert(out@.skip(0) =~= out@);
    }
    let mut from: usize = 0;
    while from < out.len() && out[from] == '-'
        invariant
            from <= out@.len(),
            without_first_dashes(out@) == without_first_dashes(out@.skip(from as int)),
        decreases out.len() - from,
    {
        proof {
            assert(out@.skip(from as int)[0] == out@[from as int]);
            assert(out@.skip(from as int).skip(1) =~= out@.skip(from + 1));
        }
        from += 1;
    }
    let mut to: usize = out.len();
    proof {
        if from < out.len() {
            assert(out@.skip(from as int)[0] == out@[from as int]);
        }
        assert(out@.subrange(from as int, to as int) =~= out@.skip(from as int));
    }
    let ghost core = without_last_dashes(without_first_dashes(out@));
    while from < to && out[to - 1] == '-'
        invariant
            from <= to <= out@.len(),
            core == without_last_dashes(out@.subrange(from as int, to as int)),
        decreases to,
    {
        proof {
            let cur = out@.subrange(from as int, to as int);
            assert(cur.last() == out@[to - 1]);
            assert(cur.drop_last() =~= out@.subrange(from as int, to - 1));
        }
        to -= 1;
    }
    proof {
        let cur = out@.subrange(from as int, to as int);
        if from < to {
            assert(cur.last() == out@[to - 1]);
        }
    }
    if from == to {
        "image".to_owned()
    } else {
        text::string_of(slice_subrange(out.as_slice(), from, to))
    }
}

/// Whether the name of a folder for attachments cannot be used: it holds a slash or a backslash,
/// or begins with two dots.
pub open spec fn bad_folder(name: Seq<char>) -> bool {
    name.contains('/') || name.contains('\\') || ".."@.is_prefix_of(name)
}

/// `s` without the slashes and backslashes in it.
pub open spec fn without_slashes(s: Seq<char>) -> Seq<char>
    decreases s.len(),
{
    if s.len() == 0 {
        Seq::empty()
    } else if s.last() == '/' || s.last() == '\\' {
        without_slashes(s.drop_last())
    } else {
        without_slashes(s.drop_last()).push(s.last())
    }
}

/// `s` without the dots at its start.
pub open spec fn without_first_dots(s: Seq<char>) -> Seq<char>
    decreases s.len(),
{
    if s.len() > 0 && s[0] == '.' {
        without_first_dots(s.skip(1))
    } else {
        s
    }
}

/// The file name that was asked for, as it can be used.
pub open spec fn clean_name(custom: Seq<char>) -> Seq<char> {
    without_first_dots(without_slashes(custom))
}

/// Whether a file name has an extension that is not empty.
pub open spec fn has_extension(leaf: Option<Seq<char>>) -> bool {
    match vault_path::leaf_extension(leaf) {
        Some(ext) => ext.len() > 0,
        None => false,
    }
}

/// The file names that the paths of a request lead to: that of the image, that of its note, and
/// the one that was asked for, as it can be used.
#[derive(Debug)]
pub struct AssetLeaves {
    pub image: Option<String>,
    pub note: Option<String>,
    pub custom: Option<String>,
}

/// What the file names of a request hold.
pub struct LeavesView {
    pub image: Option<Seq<char>>,
    pub note: Option<Seq<char>>,
    pub custom: Option<Seq<char>>,
}

impl View for AssetLeaves {
    type V = LeavesView;

    open spec fn view(&self) -> LeavesView {
        LeavesView {
            image: vault_path::optional_text(self.image),
            note: vault_path::optional_text(self.note),
            custom: vault_path::optional_text(self.custom),
        }
    }
}

/// The file name that was asked for, as it can be used, if one was asked for.
pub open spec fn clean_custom(args: WriteImageAssetArgs) -> Option<Seq<char>> {
    match args.custom_filename {
        Some(custom) => Some(clean_name(custom@)),
        None => None,
    }
}

/// Whether `leaves` can be the file names of a request, as a machine reads its paths.
pub open spec fn leaves_read(args: WriteImageAssetArgs, leaves: LeavesView) -> bool {
    &&& reads_optional(vault_path::optional_text(args.file_name), leaves.image)
    &&& vault_path::reads_leaf(args.note_path@, leaves.note)
    &&& reads_optional(clean_custom(args), leaves.custom)
}

/// What the name of the file for an image is made of, if no name was asked for.
pub open spec fn source_stem(leaves: LeavesView) -> Seq<char> {
    match vault_path::leaf_stem(leaves.image) {
        Some(s) => s,
        None => match vault_path::leaf_stem(leaves.note) {
            Some(s) => s,
            None => "image"@,
        },
    }
}

/// The name of the file that an image is stored in; `None` if the name that was asked for leaves
/// nothing to use.
pub open spec fn asset_file_name(args: WriteImageAssetArgs, leaves: LeavesView, now_ms: u64) -> Option<
    Seq<char>,
> {
    let ext = image_ext(args.mime_type@, leaves.image);
    match clean_custom(args) {
        Some(name) => if name.len() == 0 {
            None
        } else if has_extension(leaves.custom) {
            Some(name)
        } else {
            Some(name + "."@ + ext)
        },
        None => Some(
            clean_stem(source_stem(leaves)) + "-"@ + text::decimal(now_ms as nat) + "."@ + ext,
        ),
    }
}

/// The folder that an image is stored in.
pub open spec fn asset_folder(args: WriteImageAssetArgs) -> Seq<char> {
    match args.attachment_folder {
        Some(folder) => folder@,
        None => ".assets"@,
    }
}

/// Where an image is stored: its folder below the vault root and the name of its file there.
#[derive(Debug, PartialEq, Eq)]
pub struct AssetPlace {
    pub folder: String,
    pub file_name: String,
}

/// Whether `r` is where an image is stored.
pub open spec fn is_place(
    r: Result<AssetPlace, String>,
    args: WriteImageAssetArgs,
    leaves: LeavesView,
    now_ms: u64,
) -> bool {
    match r {
        Ok(place) => {
            &&& !bad_folder(asset_folder(args))
            &&& place.folder@ == asset_folder(args)
            &&& asset_file_name(args, leaves, now_ms) == Some(place.file_name@)
        },
        Err(e) => if bad_folder(asset_folder(args)) {
            e@ == "invalid attachment folder name"@
        } else {
            asset_file_name(args, leaves, now_ms) is None && e@ == "invalid custom filename"@
        },
    }
}

/// The slice of `s` behind the dots at its start.
fn after_dots(s: &[char]) -> (r: &[char])
    ensures
        r@ == without_first_dots(s@),
{
    let mut i: usize = 0;
    proof {
        assert(s@.skip(0) =~= s@);
    }
    while i < s.len() && s[i] == '.'
        invariant
            i <= s@.len(),
            without_first_dots(s@) == without_first_dots(s@.skip(i as int)),
        decreases s.len() - i,
    {
        proof {
            assert(s@.skip(i as int)[0] == s@[i as int]);
            assert(s@.skip(i as int).skip(1) =~= s@.skip(i + 1));
        }
        i += 1;
    }
    proof {
        if i < s.len() {
            assert(s@.skip(i as int)[0] == s@[i as int]);
        }
        assert(s@.subrange(i as int, s@.len() as int) =~= s@.skip(i as int));
    }
    slice_subrange(s, i, s.len())
}

/// The file name that was asked for, as it can be used.
fn cleaned_name(custom: &str) -> (r: Vec<char>)
    ensures
        r@ == clean_name(custom@),
{
    let chars = text::chars_of(custom);
    let mut out: Vec<char> = Vec::new();
    let mut i: usize = 0;
    proof {
        assert(custom@.take(0) =~= Seq::<char>::empty());
    }
    while i < chars.len()
        invariant
            i <= chars@.len(),
            chars@ == custom@,
            out@ == without_slashes(custom@.take(i as int)),
        decreases chars.len() - i,
    {
        proof {
            assert(custom@.take(i + 1).drop_last() =~= custom@.take(i as int));
            assert(custom@.take(i + 1).last() == custom@[i as int]);
        }
        if chars[i] != '/' && chars[i] != '\\' {
            out.push(chars[i]);
        }
        i += 1;
    }
    proof {
        assert(custom@.take(chars@.len() as int) =~= custom@);
    }
    text::copied(after_dots(out.as_slice()))
}

/// Whether the name of a folder for attachments cannot be used.
fn is_bad_folder(name: &str) -> (r: bool)
    ensures
        r == bad_folder(name@),
{
    let chars = text::chars_of(name);
    let dots = text::chars_of("..");
    let slash = text::find_first(chars.as_slice(), '/');
    let back = text::find_first(chars.as_slice(), '\\');
    proof {
        if slash < chars.len() {
            assert(name@[slash as int] == '/');
        }
        if back < chars.len() {
            assert(name@[back as int] == '\\');
        }
    }
    slash < chars.len() || back < chars.len() || text::has_prefix(
        chars.as_slice(),
        dots.as_slice(),
    )
}

/// What the name of the file for an image is made of, if no name was asked for.
fn pick_stem(leaves: &AssetLeaves) -> (r: String)
    ensures
        r@ == source_stem(leaves@),
{
    if let Some(stem) = vault_path::file_stem(&leaves.image) {
        return stem;
    }
    match vault_path::file_stem(&leaves.note) {
        Some(stem) => stem,
        None => "image".to_owned(),
    }
}

/// The file names of a request, as this machine reads its paths.
pub fn asset_leaves(args: &WriteImageAssetArgs) -> (r: AssetLeaves)
    ensures
        leaves_read(*args, r@),
{
    let custom = match &args.custom_filename {
        Some(custom) => {
            let name = cleaned_name(custom.as_str());
            let name = text::string_of(name.as_slice());
            vault_path::path_file_name(name.as_str())
        },
        None => None,
    };
    AssetLeaves {
        image: optional_leaf(&args.file_name),
        note: vault_path::path_file_name(args.note_path.as_str()),
        custom,
    }
}

/// Where an image is stored at the time `now_ms`, if `leaves` are the file names of the request.
pub fn asset_place_for(args: &WriteImageAssetArgs, leaves: &AssetLeaves, now_ms: u64) -> (r: Result<
    AssetPlace,
    String,
>)
    ensures
        is_place(r, *args, leaves@, now_ms),
{
    let folder = match &args.attachment_folder {
        Some(folder) => folder.as_str(),
        None => ".assets",
    };
    if is_bad_folder(folder) {
        return Err("invalid attachment folder name".to_owned());
    }
    let ext = extension_for_leaf(args.mime_type.as_str(), &leaves.image);
    let ext_chars = text::chars_of(ext.as_str());
    let dot = text::chars_of(".");
    let name = match &args.custom_filename {
        Some(custom) => {
            let mut name = cleaned_name(custom.as_str());
            if name.len() == 0 {
                return Err("invalid custom filename".to_owned());
            }
            let extended = match vault_path::file_extension(&leaves.custom) {
                Some(e) => !e.as_str().is_empty(),
                None => false,
            };
            if !extended {
                text::append(&mut name, dot.as_slice());
                text::append(&mut name, ext_chars.as_slice());
            }
            name
        },
        None => {
            let stem = pick_stem(leaves);
            let clean = sanitize_stem(stem.as_str());
            let mut name = text::chars_of(clean.as_str());
            let dash = text::chars_of("-");
            let time = text::digits_of(now_ms);
            text::append(&mut name, dash.as_slice());
            text::append(&mut name, time.as_slice());
            text::append(&mut name, dot.as_slice());
            text::append(&mut name, ext_chars.as_slice());
            name
        },
    };
    Ok(AssetPlace { folder: folder.to_owned(), file_name: text::string_of(name.as_slice()) })
}

/// Where an image is stored at the time `now_ms`.
pub fn asset_place(args: &WriteImageAssetArgs, now_ms: u64) -> (r: Result<AssetPlace, String>)
    ensures
        exists|leaves: LeavesView| #[trigger]
            leaves_read(*args, leaves) && is_place(r, *args, leaves, now_ms),
{
    let leaves = asset_leaves(args);
    let r = asset_place_for(args, &leaves, now_ms);
    assert(leaves_read(*args, leaves@));
    r
}

proof fn lemma_dashed_plain(s: Seq<char>)
    ensures
        forall|i: int|
            0 <= i < dashed(s).len() ==> plain(#[trigger] dashed(s)[i]) && !('A' <= dashed(s)[i]
                <= 'Z'),
    decreases s.len(),
{
    if s.len() > 0 {
        lemma_dashed_plain(s.drop_last());
        let before = dashed(s.drop_last());
        let all = dashed(s);
        let c = s.last();
        assert(plain(c) ==> plain(text::lower(c)) && !('A' <= text::lower(c) <= 'Z'));
        assert forall|i: int| 0 <= i < all.len() implies plain(#[trigger] all[i]) && !('A' <= all[i]
            <= 'Z') by {
            if i < before.len() {
                assert(all[i] == before[i]);
            }
        }
    }
}

proof fn lemma_first_dashes(s: Seq<char>)
    ensures
        without_first_dashes(s).len() > 0 ==> without_first_dashes(s)[0] != '-',
        exists|n: int| 0 <= n <= s.len() && #[trigger] s.skip(n) == without_first_dashes(s),
    decreases s.len(),
{
    if s.len() > 0 && s[0] == '-' {
        lemma_first_dashes(s.skip(1));
        let n = choose|n: int|
            0 <= n <= s.skip(1).len() && #[trigger] s.skip(1).skip(n) == without_first_dashes(
                s.skip(1),
            );
        assert(s.skip(n + 1) =~= s.skip(1).skip(n));
    } else {
        assert(s.skip(0) =~= s);
    }
}

proof fn lemma_last_dashes(s: Seq<char>)
    ensures
        without_last_dashes(s).len() > 0 ==> without_last_dashes(s).last() != '-',
        exists|n: int| 0 <= n <= s.len() && #[trigger] s.take(n) == without_last_dashes(s),
    decreases s.len(),
{
    if s.len() > 0 && s.last() == '-' {
        lemma_last_dashes(s.drop_last());
        let n = choose|n: int|
            0 <= n <= s.drop_last().len() && #[trigger] s.drop_last().take(n)
                == without_last_dashes(s.drop_last());
        assert(s.take(n) =~= s.drop_last().take(n));
    } else {
        assert(s.take(s.len() as int) =~= s);
    }
}

proof fn lemma_dashed_fixed(s: Seq<char>)
    requires
        forall|i: int| 0 <= i < s.len() ==> plain(#[trigger] s[i]) && !('A' <= s[i] <= 'Z'),
    ensures
        dashed(s) == s,
    decreases s.len(),
{
    if s.len() > 0 {
        let front = s.drop_last();
        assert forall|i: int| 0 <= i < front.len() implies plain(#[trigger] front[i]) && !('A'
            <= front[i] <= 'Z') by {
            assert(front[i] == s[i]);
        }
        lemma_dashed_fixed(front);
        assert(s.last() == s[s.len() - 1]);
        assert(s =~= front.push(s.last()));
    }
}

/// A generated stem is never empty, holds only lower-case letters, digits, dashes and underscores,
/// and neither begins nor ends with a dash. Made into a stem again, it stays as it is.
pub proof fn law_stem_is_clean(value: Seq<char>)
    ensures
        ({
            let stem = clean_stem(value);
            &&& stem.len() > 0
            &&& forall|i: int|
                0 <= i < stem.len() ==> plain(#[trigger] stem[i]) && !('A' <= stem[i] <= 'Z')
            &&& stem[0] != '-'
            &&& stem.last() != '-'
            &&& clean_stem(stem) == stem
        }),
{
    let full = dashed(value);
    let inner = without_first_dashes(full);
    let core = without_last_dashes(inner);
    lemma_dashed_plain(value);
    lemma_first_dashes(full);
    lemma_last_dashes(inner);
    let a = choose|n: int| 0 <= n <= full.len() && #[trigger] full.skip(n) == inner;
    let b = choose|n: int| 0 <= n <= inner.len() && #[trigger] inner.take(n) == core;
    if core.len() == 0 {
        reveal_strlit("image");
    } else {
        assert forall|i: int| 0 <= i < core.len() implies plain(#[trigger] core[i]) && !('A'
            <= core[i] <= 'Z') by {
            assert(core[i] == inner[i]);
            assert(inner[i] == full[a + i]);
        }
        assert(core[0] == inner[0]);
    }
    lemma_dashed_fixed(clean_stem(value));
}

proof fn lemma_no_slash_left(s: Seq<char>)
    ensures
        !without_slashes(s).contains('/'),
        !without_slashes(s).contains('\\'),
    decreases s.len(),
{
    if s.len() > 0 {
        let before = without_slashes(s.drop_last());
        lemma_no_slash_left(s.drop_last());
        if s.last() != '/' && s.last() != '\\' {
            text::lemma_push_contains(before, s.last(), '/');
            text::lemma_push_contains(before, s.last(), '\\');
        }
    }
}

proof fn lemma_joined(a: Seq<char>, b: Seq<char>, c: char)
    requires
        !a.contains(c),
        !b.contains(c),
    ensures
        !(a + b).contains(c),
{
    if (a + b).contains(c) {
        let i = choose|i: int| 0 <= i < (a + b).len() && (a + b)[i] == c;
        if i < a.len() {
            assert(a[i] == c);
        } else {
            assert(b[i - a.len()] == c);
        }
    }
}

proof fn lemma_dots_left(s: Seq<char>, c: char)
    requires
        !s.contains(c),
    ensures
        !without_first_dots(s).contains(c),
        without_first_dots(s).len() > 0 ==> without_first_dots(s)[0] != '.',
    decreases s.len(),
{
    if s.len() > 0 && s[0] == '.' {
        if s.skip(1).contains(c) {
            let i = choose|i: int| 0 <= i < s.skip(1).len() && s.skip(1)[i] == c;
            assert(s[i + 1] == c);
        }
        lemma_dots_left(s.skip(1), c);
    }
}

/// A file name that was asked for is used without slashes and backslashes, and without dots at its
/// start.
pub proof fn law_custom_name_is_one_segment(custom: Seq<char>)
    ensures
        !clean_name(custom).contains('/'),
        !clean_name(custom).contains('\\'),
        clean_name(custom).len() > 0 ==> clean_name(custom)[0] != '.',
{
    lemma_no_slash_left(custom);
    lemma_dots_left(without_slashes(custom), '/');
    lemma_dots_left(without_slashes(custom), '\\');
}

proof fn lemma_decimal(n: nat)
    ensures
        !text::decimal(n).contains('/'),
    decreases n,
{
    let digit = ('0' as u32 + n % 10) as char;
    assert('0' <= digit <= '9');
    if n >= 10 {
        lemma_decimal(n / 10);
        text::lemma_push_contains(text::decimal(n / 10), digit, '/');
    }
}

proof fn lemma_extension(mime_type: Seq<char>, leaf: Option<Seq<char>>)
    requires
        match leaf {
            Some(name) => !name.contains('/'),
            None => true,
        },
    ensures
        !image_ext(mime_type, leaf).contains('/'),
{
    reveal_strlit("jpg");
    reveal_strlit("gif");
    reveal_strlit("webp");
    reveal_strlit("bmp");
    reveal_strlit("svg");
    reveal_strlit("png");
    assert(!"jpg"@.contains('/'));
    assert(!"gif"@.contains('/'));
    assert(!"webp"@.contains('/'));
    assert(!"bmp"@.contains('/'));
    assert(!"svg"@.contains('/'));
    assert(!"png"@.contains('/'));
    if let Some(name) = leaf {
        if let Some(ext) = vault_path::extension_of(name) {
            text::lemma_last_at_bounds(name, '.');
            let low = text::ascii_lower(ext);
            if low.contains('/') {
                let i = choose|i: int| 0 <= i < low.len() && low[i] == '/';
                assert(text::lower(ext[i]) == '/');
                assert(ext[i] == '/');
                assert(name[text::last_at(name, '.') + 1 + i] == '/');
            }
        }
    }
}

/// An image is stored directly in its folder: the name of its file holds no slash, if the file name
/// that came with it holds none.
pub proof fn law_asset_lies_in_its_folder(
    args: WriteImageAssetArgs,
    leaves: LeavesView,
    now_ms: u64,
)
    requires
        match leaves.image {
            Some(name) => !name.contains('/'),
            None => true,
        },
    ensures
        match asset_file_name(args, leaves, now_ms) {
            Some(name) => !name.contains('/'),
            None => true,
        },
{
    let ext = image_ext(args.mime_type@, leaves.image);
    lemma_extension(args.mime_type@, leaves.image);
    reveal_strlit(".");
    reveal_strlit("-");
    match args.custom_filename {
        Some(custom) => {
            let name = clean_name(custom@);
            law_custom_name_is_one_segment(custom@);
            lemma_joined(name, "."@, '/');
            lemma_joined(name + "."@, ext, '/');
        },
        None => {
            let source = source_stem(leaves);
            let clean = clean_stem(source);
            let time = text::decimal(now_ms as nat);
            law_stem_is_clean(source);
            if clean.contains('/') {
                let i = choose|i: int| 0 <= i < clean.len() && clean[i] == '/';
                assert(plain(clean[i]));
            }
            lemma_decimal(now_ms as nat);
            lemma_joined(clean, "-"@, '/');
            lemma_joined(clean + "-"@, time, '/');
            lemma_joined(clean + "-"@ + time, "."@, '/');
            lemma_joined(clean + "-"@ + time + "."@, ext, '/');
        },
    }
}

} // verus!
