//! File-system path names, read as text.

use vstd::prelude::*;
use crate::text::owned;

verus! {

/// The final component of a path, as `std::path::Path::file_name` returns
/// it (`None` when the path ends in `..` or has no final component).
pub uninterp spec fn file_name_of(path: Seq<char>) -> Option<Seq<char>>;

/// Calls `Path::file_name`. Trusted: the result is the final component of
/// the path, a function of the path text alone; no more than that is stated.
#[verifier::external_body]
pub(crate) fn file_name(path: &str) -> (r: Option<String>)
    ensures
        r matches Some(n) ==> file_name_of(path@) == Some(n@),
        r is None ==> file_name_of(path@) is None,
{
    std::path::Path::new(path).file_name().map(|n| n.to_string_lossy().into_owned())
}

/// Offset of the last `.` in `s`, if any.
pub open spec fn last_dot(s: Seq<char>) -> Option<int>
    decreases s.len(),
{
    if s.len() == 0 {
        None
    } else if s.last() == '.' {
        Some(s.len() - 1)
    } else {
        last_dot(s.drop_last())
    }
}

/// The extension of a file name as `Path::extension` documents it: none
/// without an embedded `.`, none for a name that begins with `.` and has no
/// other `.`, else the part after the final `.`.
pub open spec fn extension_of_name(name: Seq<char>) -> Option<Seq<char>> {
    match last_dot(name) {
        Some(i) => if i == 0 {
            None
        } else {
            Some(name.skip(i + 1))
        },
        None => None,
    }
}

/// The extension of a path (`Path::extension`).
pub open spec fn extension_of(path: Seq<char>) -> Option<Seq<char>> {
    match file_name_of(path) {
        Some(name) => extension_of_name(name),
        None => None,
    }
}

/// The extension of a file name (see `extension_of_name`).
pub fn name_extension(name: &str) -> (r: Option<&str>)
    ensures
        r matches Some(e) ==> extension_of_name(name@) == Some(e@),
        r is None ==> extension_of_name(name@) is None,
{
    let n = name.unicode_len();
    let mut i = n;
    assert(name@.take(n as int) =~= name@);
    while i > 0
        invariant
            i <= n == name@.len(),
            last_dot(name@) == last_dot(name@.take(i as int)),
        decreases i,
    {
        let ghost t = name@.take(i as int);
        assert(t.drop_last() =~= name@.take(i - 1));
        if name.get_char(i - 1) == '.' {
            if i - 1 == 0 {
                return None;
            }
            let e = name.substring_char(i, n);
            assert(e@ =~= name@.skip(i as int));
            return Some(e);
        }
        i -= 1;
    }
    assert(name@.take(0) =~= Seq::<char>::empty());
    None
}

/// The extension of a path (`Path::extension`).
pub fn extension(path: &str) -> (r: Option<String>)
    ensures
        r matches Some(e) ==> extension_of(path@) == Some(e@),
        r is None ==> extension_of(path@) is None,
{
    match file_name(path) {
        Some(name) => match name_extension(name.as_str()) {
            Some(e) => Some(owned(e)),
            None => None,
        },
        None => None,
    }
}

} // verus!
