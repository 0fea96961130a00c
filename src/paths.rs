use vstd::prelude::*;

verus! {

/// The path that `rel` names when read relative to `base`, as Unix paths are
/// joined: an absolute `rel` replaces `base`, otherwise a single `/` separates
/// the two unless `base` is empty or already ends in one.
pub open spec fn joined(base: Seq<char>, rel: Seq<char>) -> Seq<char> {
    if rel.len() > 0 && rel[0] == '/' {
        rel
    } else if base.len() == 0 || base.last() == '/' {
        base + rel
    } else {
        base + seq!['/'] + rel
    }
}

/// The file name of a path without its final extension, or empty where the
/// path has no file name.
pub uninterp spec fn stem_of(p: Seq<char>) -> Seq<char>;

/// The final extension of a path's file name, without the dot, or empty where
/// it has none.
pub uninterp spec fn extension_of(p: Seq<char>) -> Seq<char>;

/// Joins `rel` onto `base` as a Unix path.
pub fn join_path(base: &String, rel: &String) -> (r: String)
    ensures
        r@ == joined(base@, rel@),
{
    let b: &str = base.as_str();
    let q: &str = rel.as_str();
    let qn: usize = q.unicode_len();
    let bn: usize = b.unicode_len();
    if qn > 0 && q.get_char(0) == '/' {
        rel.clone()
    } else if bn == 0 || b.get_char(bn - 1) == '/' {
        base.clone().concat(q)
    } else {
        let with_sep = base.clone().concat("/");
        proof {
            reveal_strlit("/");
        }
        with_sep.concat(q)
    }
}

/// Relies on `std::path::Path::file_stem`: the stem of the path's file name,
/// taken as empty where there is none or it is not valid Unicode.
#[verifier::external_body]
pub(crate) fn file_stem(p: &String) -> (r: String)
    ensures
        r@ == stem_of(p@),
{
    std::path::Path::new(p).file_stem().and_then(|s| s.to_str()).unwrap_or("").to_string()
}

/// Relies on `std::path::Path::extension`: the extension of the path's file
/// name, taken as empty where there is none or it is not valid Unicode.
#[verifier::external_body]
pub(crate) fn file_extension(p: &String) -> (r: String)
    ensures
        r@ == extension_of(p@),
{
    std::path::Path::new(p).extension().and_then(|s| s.to_str()).unwrap_or("").to_string()
}

/// Relies on `String::push`: appends one character.
#[verifier::external_body]
pub(crate) fn push_char(s: &mut String, c: char)
    ensures
        final(s)@ == old(s)@.push(c),
{
    s.push(c)
}

} // verus!
