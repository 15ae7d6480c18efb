//! The asset store's naming and its read boundary. A stored asset keeps its
//! name and extension but gains a uniqueness token, so same-named drops from
//! different notes never overwrite each other. Reading an asset is allowed
//! only for a fixed list of image extensions, compared without regard to
//! ASCII case — a deliberate boundary against arbitrary file disclosure.

use crate::paths::{spec_extension, spec_last_dot};
use crate::registry::NoteError;
use crate::text::{chars_range_to_string, chars_to_string, str_eq, str_to_chars};
use vstd::prelude::*;

verus! {

/// ASCII lowercase of one character; anything but A–Z is itself.
pub open spec fn lower_char(c: char) -> char {
    match c {
        'A' => 'a',
        'B' => 'b',
        'C' => 'c',
        'D' => 'd',
        'E' => 'e',
        'F' => 'f',
        'G' => 'g',
        'H' => 'h',
        'I' => 'i',
        'J' => 'j',
        'K' => 'k',
        'L' => 'l',
        'M' => 'm',
        'N' => 'n',
        'O' => 'o',
        'P' => 'p',
        'Q' => 'q',
        'R' => 'r',
        'S' => 's',
        'T' => 't',
        'U' => 'u',
        'V' => 'v',
        'W' => 'w',
        'X' => 'x',
        'Y' => 'y',
        'Z' => 'z',
        _ => c,
    }
}

pub open spec fn spec_lower(s: Seq<char>) -> Seq<char> {
    s.map_values(|c: char| lower_char(c))
}

/// Executable mirror of [`lower_char`].
fn lower_char_exec(c: char) -> (r: char)
    ensures
        r == lower_char(c),
{
    match c {
        'A' => 'a',
        'B' => 'b',
        'C' => 'c',
        'D' => 'd',
        'E' => 'e',
        'F' => 'f',
        'G' => 'g',
        'H' => 'h',
        'I' => 'i',
        'J' => 'j',
        'K' => 'k',
        'L' => 'l',
        'M' => 'm',
        'N' => 'n',
        'O' => 'o',
        'P' => 'p',
        'Q' => 'q',
        'R' => 'r',
        'S' => 's',
        'T' => 't',
        'U' => 'u',
        'V' => 'v',
        'W' => 'w',
        'X' => 'x',
        'Y' => 'y',
        'Z' => 'z',
        _ => c,
    }
}

/// The characters of `v[from..upto)`, ASCII-lowercased.
fn lower_range(v: &Vec<char>, from: usize, upto: usize) -> (r: Vec<char>)
    requires
        from <= upto <= v@.len(),
    ensures
        r@ == spec_lower(v@.subrange(from as int, upto as int)),
{
    let ghost s = v@.subrange(from as int, upto as int);
    let mut r: Vec<char> = Vec::new();
    let mut i: usize = from;
    while i < upto
        invariant
            from <= i <= upto <= v@.len(),
            s == v@.subrange(from as int, upto as int),
            r@ == spec_lower(s.subrange(0, i - from)),
        decreases upto - i,
    {
        r.push(lower_char_exec(v[i]));
        proof {
            assert(r@ =~= spec_lower(s.subrange(0, i + 1 - from)));
        }
        i = i + 1;
    }
    proof {
        assert(s.subrange(0, upto - from) =~= s);
    }
    r
}

/// The lowercased extension a read request presents: empty when the path
/// has none.
pub open spec fn spec_image_ext(s: Seq<char>) -> Seq<char> {
    match spec_extension(s) {
        Some(e) => spec_lower(e),
        None => Seq::empty(),
    }
}

/// The extensions the asset-read interface will serve.
pub open spec fn spec_allowed_image_ext(e: Seq<char>) -> bool {
    ||| e == "png"@
    ||| e == "jpg"@
    ||| e == "jpeg"@
    ||| e == "gif"@
    ||| e == "webp"@
    ||| e == "svg"@
}

/// The asset-read boundary: `Ok` exactly when the path's lowercased
/// extension is on the image allow-list; any other request fails with
/// `ForbiddenExtension` carrying that lowercased extension.
pub fn check_image_path(path: &str) -> (r: Result<(), NoteError>)
    ensures
        match r {
            Ok(()) => spec_allowed_image_ext(spec_image_ext(path@)),
            Err(e) => {
                &&& !spec_allowed_image_ext(spec_image_ext(path@))
                &&& e matches NoteError::ForbiddenExtension(ext) && ext@ == spec_image_ext(path@)
            },
        },
{
    let v = str_to_chars(path);
    let lowered = match crate::paths::find_extension(&v) {
        Some(d) => {
            let n = v.len();
            assert(d < n);
            lower_range(&v, d + 1, n)
        },
        None => Vec::new(),
    };
    proof {
        assert(lowered@ == spec_image_ext(path@));
    }
    let ext = chars_to_string(&lowered);
    if str_eq(ext.as_str(), "png") || str_eq(ext.as_str(), "jpg") || str_eq(ext.as_str(), "jpeg")
        || str_eq(ext.as_str(), "gif") || str_eq(ext.as_str(), "webp") || str_eq(
        ext.as_str(),
        "svg",
    ) {
        Ok(())
    } else {
        Err(NoteError::ForbiddenExtension(ext))
    }
}

/// The stored name for an asset: the original stem, an underscore, the
/// uniqueness token, a dot, and the original extension (`png` when the name
/// has none).
pub open spec fn spec_asset_name(name: Seq<char>, token: Seq<char>) -> Seq<char> {
    match spec_extension(name) {
        Some(e) => name.subrange(0, spec_last_dot(name)) + "_"@ + token + "."@ + e,
        None => name + "_"@ + token + "."@ + "png"@,
    }
}

/// Builds the stored name from an explicit token.
pub fn asset_file_name(name: &str, token: &str) -> (r: String)
    ensures
        r@ == spec_asset_name(name@, token@),
{
    let v = str_to_chars(name);
    match crate::paths::find_extension(&v) {
        Some(d) => {
            let n = v.len();
            assert(d < n);
            let mut r = chars_range_to_string(&v, 0, d);
            r.append("_");
            r.append(token);
            r.append(".");
            let ext = chars_range_to_string(&v, d + 1, n);
            r.append(ext.as_str());
            r
        },
        None => {
            let mut r = name.to_owned();
            r.append("_");
            r.append(token);
            r.append(".");
            r.append("png");
            r
        },
    }
}

/// Names a dropped asset for storage, with a fresh 32-character token
/// avoiding collisions between same-named assets.
pub fn store_asset_name(name: &str) -> (r: String)
    ensures
        exists|token: Seq<char>|
            token.len() == 32 && r@ == #[trigger] spec_asset_name(name@, token),
{
    let token = crate::ids::fresh_token();
    let r = asset_file_name(name, token.as_str());
    proof {
        assert(r@ == spec_asset_name(name@, token@));
    }
    r
}

} // verus!
