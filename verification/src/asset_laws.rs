use crate::image_asset;
use crate::image_asset::{AssetPlace, LeavesView, WriteImageAssetArgs};
use crate::text;
use crate::vault_laws;
use crate::vault_path;
use vstd::prelude::*;

verus! {

/// The extension for a media type, in whatever case that is written; a type that is not known has
/// the extension of a PNG.
pub proof fn law_media_types(mime: Seq<char>)
    ensures
        ({
            let low = text::ascii_lower(mime);
            let ext = image_asset::extension_for(mime);
            &&& low == "image/jpeg"@ ==> ext == "jpg"@
            &&& low == "image/gif"@ ==> ext == "gif"@
            &&& low == "image/webp"@ ==> ext == "webp"@
            &&& low == "image/bmp"@ ==> ext == "bmp"@
            &&& low == "image/svg+xml"@ ==> ext == "svg"@
            &&& low != "image/jpeg"@ && low != "image/gif"@ && low != "image/webp"@ && low
                != "image/bmp"@ && low != "image/svg+xml"@ ==> ext == "png"@
        }),
{
    reveal_strlit("image/jpeg");
    reveal_strlit("image/gif");
    reveal_strlit("image/webp");
    reveal_strlit("image/bmp");
    reveal_strlit("image/svg+xml");
    assert("image/jpeg"@[6] == 'j');
    assert("image/gif"@[6] == 'g');
    assert("image/webp"@[6] == 'w');
    assert("image/bmp"@[6] == 'b');
    assert("image/svg+xml"@[6] == 's');
}

/// An image keeps the extension of its file name, in lower case; without one it gets that of its
/// media type.
pub proof fn law_image_extension(mime: Seq<char>, stem: Seq<char>, ext: Seq<char>)
    requires
        !ext.contains('.'),
    ensures
        stem.len() > 0 && ext.len() > 0 ==> image_asset::image_ext(
            mime,
            Some(stem + seq!['.'] + ext),
        ) == text::ascii_lower(ext),
        stem.len() > 0 ==> image_asset::image_ext(mime, Some(stem + seq!['.']))
            == image_asset::extension_for(mime),
        image_asset::image_ext(mime, Some(ext)) == image_asset::extension_for(mime),
        image_asset::image_ext(mime, Some(seq!['.'] + ext)) == image_asset::extension_for(mime),
        image_asset::image_ext(mime, None) == image_asset::extension_for(mime),
{
    if stem.len() > 0 {
        vault_laws::law_stem_and_extension(stem, ext);
        vault_laws::law_stem_and_extension(stem, Seq::empty());
        assert(stem + seq!['.'] + Seq::<char>::empty() =~= stem + seq!['.']);
    }
    assert forall|k: int| 0 < k < ext.len() implies #[trigger] ext[k] != '.' by {}
    vault_laws::law_name_without_extension(ext);
    let hidden = seq!['.'] + ext;
    assert forall|k: int| 0 < k < hidden.len() implies #[trigger] hidden[k] != '.' by {
        assert(hidden[k] == ext[k - 1]);
    }
    vault_laws::law_name_without_extension(hidden);
}

/// The characters that stay in the stem of a generated file name: letters and digits of ASCII,
/// underscores and dashes.
pub proof fn law_plain_characters(c: char)
    ensures
        image_asset::plain(c) <==> {
            let n = c as u32;
            ||| 97 <= n <= 122
            ||| 65 <= n <= 90
            ||| 48 <= n <= 57
            ||| n == 95
            ||| n == 45
        },
{
}

proof fn lemma_dashed_last(s: Seq<char>)
    ensures
        s.len() == 0 <==> image_asset::dashed(s).len() == 0,
        s.len() > 0 ==> (image_asset::dashed(s).last() == '-' <==> s.last() == '-'
            || !image_asset::plain(s.last())),
    decreases s.len(),
{
    if s.len() > 0 {
        lemma_dashed_last(s.drop_last());
    }
}

/// Characters that stay are put in lower case.
pub proof fn law_plain_run_is_kept(s: Seq<char>, run: Seq<char>)
    requires
        forall|k: int| 0 <= k < run.len() ==> image_asset::plain(#[trigger] run[k]),
    ensures
        image_asset::dashed(s + run) == image_asset::dashed(s) + text::ascii_lower(run),
    decreases run.len(),
{
    if run.len() == 0 {
        assert(s + run =~= s);
        assert(image_asset::dashed(s) + text::ascii_lower(run) =~= image_asset::dashed(s));
    } else {
        let front = run.drop_last();
        assert forall|k: int| 0 <= k < front.len() implies image_asset::plain(
            #[trigger] front[k],
        ) by {
            assert(front[k] == run[k]);
        }
        law_plain_run_is_kept(s, front);
        assert((s + run).drop_last() =~= s + front);
        assert((s + run).last() == run.last());
        assert(image_asset::plain(run[run.len() - 1]));
        assert(image_asset::dashed(s) + text::ascii_lower(run) =~= (image_asset::dashed(s)
            + text::ascii_lower(front)).push(text::lower(run.last())));
    }
}

/// A run of other characters becomes one dash, or none where a dash or such a run stands before it.
pub proof fn law_other_run_becomes_a_dash(s: Seq<char>, run: Seq<char>)
    requires
        run.len() > 0,
        forall|k: int| 0 <= k < run.len() ==> !image_asset::plain(#[trigger] run[k]),
    ensures
        image_asset::dashed(s + run) == if s.len() > 0 && (s.last() == '-' || !image_asset::plain(
            s.last(),
        )) {
            image_asset::dashed(s)
        } else {
            image_asset::dashed(s) + seq!['-']
        },
        image_asset::dashed(Seq::<char>::empty()) == Seq::<char>::empty(),
    decreases run.len(),
{
    let front = run.drop_last();
    assert((s + run).drop_last() =~= s + front);
    assert((s + run).last() == run.last());
    assert(!image_asset::plain(run[run.len() - 1]));
    lemma_dashed_last(s);
    if front.len() == 0 {
        assert(s + front =~= s);
        assert(image_asset::dashed(s).push('-') =~= image_asset::dashed(s) + seq!['-']);
    } else {
        assert forall|k: int| 0 <= k < front.len() implies !image_asset::plain(
            #[trigger] front[k],
        ) by {
            assert(front[k] == run[k]);
        }
        law_other_run_becomes_a_dash(s, front);
        lemma_dashed_last(s + front);
        assert((s + front).last() == front.last());
        assert(!image_asset::plain(front[front.len() - 1]));
    }
}

proof fn lemma_first_dashes_off(s: Seq<char>) -> (a: int)
    ensures
        0 <= a <= s.len(),
        image_asset::without_first_dashes(s) == s.skip(a),
        forall|k: int| 0 <= k < a ==> #[trigger] s[k] == '-',
        a < s.len() ==> s[a] != '-',
    decreases s.len(),
{
    if s.len() > 0 && s[0] == '-' {
        let rest = s.skip(1);
        let a = lemma_first_dashes_off(rest);
        assert(s.skip(a + 1) =~= rest.skip(a));
        assert forall|k: int| 0 <= k < a + 1 implies #[trigger] s[k] == '-' by {
            if k > 0 {
                assert(rest[k - 1] == s[k]);
            }
        }
        a + 1
    } else {
        assert(s.skip(0) =~= s);
        0
    }
}

proof fn lemma_last_dashes_off(s: Seq<char>) -> (b: int)
    ensures
        0 <= b <= s.len(),
        image_asset::without_last_dashes(s) == s.take(b),
        forall|k: int| b <= k < s.len() ==> #[trigger] s[k] == '-',
        b > 0 ==> s[b - 1] != '-',
    decreases s.len(),
{
    if s.len() > 0 && s.last() == '-' {
        let front = s.drop_last();
        let b = lemma_last_dashes_off(front);
        assert(s.take(b) =~= front.take(b));
        assert forall|k: int| b <= k < s.len() implies #[trigger] s[k] == '-' by {
            if k < front.len() {
                assert(front[k] == s[k]);
            }
        }
        b
    } else {
        assert(s.take(s.len() as int) =~= s);
        s.len() as int
    }
}

/// The stem of a generated file name is a text in lower case with dashes for all else, from its
/// first to its last character that is no dash; where there is none, the stem is `image`.
pub proof fn law_clean_stem(value: Seq<char>) -> (r: (int, int))
    ensures
        ({
            let full = image_asset::dashed(value);
            let (a, b) = r;
            &&& 0 <= a <= b <= full.len()
            &&& forall|k: int| 0 <= k < a || b <= k < full.len() ==> #[trigger] full[k] == '-'
            &&& a < b ==> full[a] != '-' && full[b - 1] != '-' && image_asset::clean_stem(value)
                == full.subrange(a, b)
            &&& a == b ==> image_asset::clean_stem(value) == "image"@
        }),
{
    let full = image_asset::dashed(value);
    let a = lemma_first_dashes_off(full);
    let inner = full.skip(a);
    let len = lemma_last_dashes_off(inner);
    let b = a + len;
    assert(inner.take(len) =~= full.subrange(a, b));
    assert forall|k: int| 0 <= k < a || b <= k < full.len() implies #[trigger] full[k] == '-' by {
        if k >= b {
            assert(inner[k - a] == full[k]);
        }
    }
    if a < b {
        assert(inner[0] == full[a]);
        assert(inner[len - 1] == full[b - 1]);
    }
    (a, b)
}

/// A folder for attachments cannot have a name with a slash or a backslash in it or two dots at its
/// start, and any other name it can have.
pub proof fn law_attachment_folder_name(name: Seq<char>)
    ensures
        image_asset::bad_folder(name) <==> (name.len() >= 2 && name[0] == '.' && name[1] == '.')
            || exists|k: int|
            0 <= k < name.len() && (#[trigger] name[k] == '/' || name[k] == '\\'),
{
    reveal_strlit("..");
    if name.contains('/') {
        let k = choose|k: int| 0 <= k < name.len() && name[k] == '/';
        assert(name[k] == '/');
    }
    if name.contains('\\') {
        let k = choose|k: int| 0 <= k < name.len() && name[k] == '\\';
        assert(name[k] == '\\');
    }
    if name.len() >= 2 {
        assert(name.take(2)[0] == name[0] && name.take(2)[1] == name[1]);
        if name[0] == '.' && name[1] == '.' {
            assert(name.take(2) =~= ".."@);
        }
    }
}

proof fn lemma_slashes_filtered(s: Seq<char>)
    ensures
        image_asset::without_slashes(s) == s.filter(|c: char| c != '/' && c != '\\'),
    decreases s.len(),
{
    reveal(Seq::filter);
    if s.len() > 0 {
        lemma_slashes_filtered(s.drop_last());
    }
}

proof fn lemma_first_dots_off(s: Seq<char>) -> (a: int)
    ensures
        0 <= a <= s.len(),
        image_asset::without_first_dots(s) == s.skip(a),
        forall|k: int| 0 <= k < a ==> #[trigger] s[k] == '.',
        a < s.len() ==> s[a] != '.',
    decreases s.len(),
{
    if s.len() > 0 && s[0] == '.' {
        let rest = s.skip(1);
        let a = lemma_first_dots_off(rest);
        assert(s.skip(a + 1) =~= rest.skip(a));
        assert forall|k: int| 0 <= k < a + 1 implies #[trigger] s[k] == '.' by {
            if k > 0 {
                assert(rest[k - 1] == s[k]);
            }
        }
        a + 1
    } else {
        assert(s.skip(0) =~= s);
        0
    }
}

/// A file name that was asked for is used without its slashes and backslashes, and then without the
/// dots at its start; all else of it is kept.
pub proof fn law_clean_name(custom: Seq<char>) -> (dots: int)
    ensures
        ({
            let kept = custom.filter(|c: char| c != '/' && c != '\\');
            &&& 0 <= dots <= kept.len()
            &&& forall|k: int| 0 <= k < dots ==> #[trigger] kept[k] == '.'
            &&& dots < kept.len() ==> kept[dots] != '.'
            &&& image_asset::clean_name(custom) == kept.skip(dots)
        }),
{
    lemma_slashes_filtered(custom);
    lemma_first_dots_off(image_asset::without_slashes(custom))
}

/// An image is stored in the folder that was asked for, or else in `.assets`, and not at all if that
/// folder cannot be used. A file name that was asked for is used, with the extension of the image if
/// it has none, and not at all if nothing of it can be used. Else the file name is made of the name
/// of the image, or of the note, or of `image`, and of the time.
pub proof fn law_asset_place(
    r: Result<AssetPlace, String>,
    args: WriteImageAssetArgs,
    leaves: LeavesView,
    now_ms: u64,
)
    requires
        image_asset::is_place(r, args, leaves, now_ms),
    ensures
        ({
            let folder = match args.attachment_folder {
                Some(name) => name@,
                None => ".assets"@,
            };
            let ext = image_asset::image_ext(args.mime_type@, leaves.image);
            let stem = match (leaves.image, leaves.note) {
                (Some(name), _) => vault_path::stem_of(name),
                (None, Some(name)) => vault_path::stem_of(name),
                (None, None) => "image"@,
            };
            if image_asset::bad_folder(folder) {
                r matches Err(e) && e@ == "invalid attachment folder name"@
            } else {
                match args.custom_filename {
                    Some(custom) => {
                        let name = image_asset::clean_name(custom@);
                        let extended = leaves.custom matches Some(leaf) && (vault_path::extension_of(
                            leaf,
                        ) matches Some(e) && e.len() > 0);
                        &&& name.len() == 0 ==> (r matches Err(e) && e@
                            == "invalid custom filename"@)
                        &&& name.len() > 0 && extended ==> (r matches Ok(place) && place.folder@
                            == folder && place.file_name@ == name)
                        &&& name.len() > 0 && !extended ==> (r matches Ok(place) && place.folder@
                            == folder && place.file_name@ == name + seq!['.'] + ext)
                    },
                    None => r matches Ok(place) && place.folder@ == folder && place.file_name@
                        == image_asset::clean_stem(stem) + seq!['-'] + text::decimal(now_ms as nat)
                        + seq!['.'] + ext,
                }
            }
        }),
{
    reveal_strlit(".");
    reveal_strlit("-");
    assert("."@ =~= seq!['.']);
    assert("-"@ =~= seq!['-']);
}

} // verus!
