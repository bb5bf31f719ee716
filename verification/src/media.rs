//! Where a downloaded media file is stored.
use vstd::prelude::*;

use crate::config::MediaType;
use crate::text::{decimal_text, first_index_of, last_index_of};

verus! {

/// `base` joined with `part` as a Unix path, with `/` separators: an absolute `part` replaces `base`,
/// otherwise a separator is put between them unless `base` is empty or already ends in one.
pub open spec fn path_join(base: Seq<char>, part: Seq<char>) -> Seq<char> {
    if part.len() > 0 && part[0] == '/' {
        part
    } else if base.len() > 0 && base.last() != '/' {
        base + seq!['/'] + part
    } else {
        base + part
    }
}

/// The extension of the file a URL names: the text after the last `.` of the part before the
/// first `?` (all of that part when it holds no `.`).
pub open spec fn url_extension(url: Seq<char>) -> Seq<char> {
    let path = url.take(first_index_of(url, '?'));
    path.skip(last_index_of(path, '.') + 1)
}

/// The directory that holds media of a type.
pub open spec fn media_dir(media_type: MediaType) -> Seq<char> {
    match media_type {
        MediaType::Image => "image"@,
        MediaType::Video => "video"@,
        MediaType::Other => "other"@,
    }
}

/// `output_dir/sheet/id/<media dir>/<index>.<extension of url>`.
pub open spec fn spec_media_path(
    output_dir: Seq<char>,
    sheet: Seq<char>,
    id: Seq<char>,
    media_type: MediaType,
    index: nat,
    url: Seq<char>,
) -> Seq<char> {
    path_join(
        path_join(path_join(path_join(output_dir, sheet), id), media_dir(media_type)),
        decimal_text(index) + "."@ + url_extension(url),
    )
}

/// Appends `part` to the path `base` as `path_join` says.
pub fn join_path(base: String, part: &str) -> (r: String)
    ensures
        r@ == path_join(base@, part@),
{
    proof {
        reveal_strlit("/");
    }
    let n = part.unicode_len();
    if n > 0 && part.get_char(0) == '/' {
        return part.to_owned();
    }
    let m = base.as_str().unicode_len();
    let needs_separator = m > 0 && base.as_str().get_char(m - 1) != '/';
    let mut r = base;
    if needs_separator {
        r.append("/");
    }
    r.append(part);
    r
}

/// The path a media file is stored at, built with `/` separators as Unix paths join (a part
/// that starts with `/` replaces what came before); Windows separators and drive prefixes are
/// not handled.
pub fn make_media_path(
    output_dir: &str,
    sheet: &str,
    id: &str,
    media_type: &MediaType,
    index: usize,
    url: &str,
) -> (r: String)
    ensures
        r@ == spec_media_path(output_dir@, sheet@, id@, *media_type, index as nat, url@),
{
    let q = crate::text::find_char(url, '?');
    let path = url.substring_char(0, q);
    let n = path.unicode_len();
    let dot = crate::text::after_last_char(path, '.');
    let ext = path.substring_char(dot, n);
    assert(path@ =~= url@.take(first_index_of(url@, '?')));
    assert(ext@ =~= path@.skip(last_index_of(path@, '.') + 1));

    let mut filename = crate::text::decimal_string(index as u64);
    filename.append(".");
    filename.append(ext);

    let dir = match media_type {
        MediaType::Image => "image",
        MediaType::Video => "video",
        MediaType::Other => "other",
    };

    let p = join_path(output_dir.to_owned(), sheet);
    let p = join_path(p, id);
    let p = join_path(p, dir);
    join_path(p, filename.as_str())
}

} // verus!
