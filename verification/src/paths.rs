//! File names written as text: the last component of a path and its
//! extension, as `std::path::Path` reads them.

use vstd::prelude::*;

use crate::text::{chars_of, same};

verus! {

/// The last component of a path.
pub open spec fn file_name_start(p: Seq<char>) -> int
    decreases p.len(),
{
    if p.len() == 0 {
        0
    } else if p.last() == '/' {
        p.len() as int
    } else {
        file_name_start(p.drop_last())
    }
}

/// The position of the last `.` of a file name, if it is not its first
/// character.
pub open spec fn ext_dot(name: Seq<char>) -> Option<int>
    decreases name.len(),
{
    if name.len() <= 1 {
        None
    } else if name.last() == '.' {
        Some(name.len() - 1)
    } else {
        ext_dot(name.drop_last())
    }
}

/// The extension of a file name: what follows its last `.`, unless that
/// `.` is its first character.
pub open spec fn extension(name: Seq<char>) -> Option<Seq<char>> {
    match ext_dot(name) {
        Some(d) => Some(name.skip(d + 1)),
        None => None,
    }
}

/// Whether a path names a Markdown file: its extension is `md`, `morg` or
/// `markdown`.
pub open spec fn markdown_path(path: Seq<char>) -> bool {
    match extension(path.skip(file_name_start(path))) {
        Some(e) => e == "md"@ || e == "morg"@ || e == "markdown"@,
        None => false,
    }
}

/// Whether a path names a Markdown file (see [`markdown_path`]).
pub fn is_markdown(path: &str) -> (b: bool)
    ensures
        b == markdown_path(path@),
{
    let p = chars_of(path);
    let mut k = p.len();
    assert(p@.take(p@.len() as int) =~= p@);
    while k > 0 && p[k - 1] != '/'
        invariant
            k <= p@.len(),
            file_name_start(p@.take(k as int)) == file_name_start(p@),
        decreases k,
    {
        assert(p@.take(k as int).drop_last() =~= p@.take(k - 1));
        k -= 1;
    }
    assert(file_name_start(p@.take(k as int)) == k) by {
        if k > 0 {
            assert(p@.take(k as int).last() == '/');
        }
    }
    let name = crate::text::skip(&p, k);
    let mut d = name.len();
    assert(name@.take(name@.len() as int) =~= name@);
    while d > 1 && name[d - 1] != '.'
        invariant
            d <= name@.len(),
            ext_dot(name@.take(d as int)) == ext_dot(name@),
        decreases d,
    {
        assert(name@.take(d as int).drop_last() =~= name@.take(d - 1));
        d -= 1;
    }
    if d <= 1 {
        assert(ext_dot(name@) is None);
        return false;
    }
    assert(name@.take(d as int).last() == '.');
    assert(ext_dot(name@) == Some(d - 1));
    let ext = crate::text::skip(&name, d);
    proof {
        reveal_strlit("md");
        reveal_strlit("morg");
        reveal_strlit("markdown");
    }
    same(&ext, &chars_of("md")) || same(&ext, &chars_of("morg")) || same(&ext, &chars_of("markdown"))
}

} // verus!
