//! The path of a URL, as the text of a file-system path.

use vstd::prelude::*;

verus! {

broadcast use vstd::string::group_string_axioms;

/// A path is absolute where it begins with the separator `/`.
pub open spec fn is_absolute(path: Seq<char>) -> bool {
    path.len() > 0 && path[0] == '/'
}

/// The path that is left of `path` when its last component is taken away, as
/// `camino::Utf8PathBuf::pop` leaves it.
pub uninterp spec fn parent_path(path: Seq<char>) -> Seq<char>;

/// `camino::Utf8PathBuf::pop`, on the path with the text `path`: the path is
/// cut down to its parent, and stays as it is where it has none. Trusted:
/// what is left depends on the text alone, it is a beginning of that text,
/// and the root `/` has no parent.
#[verifier::external_body]
pub(crate) fn pop_path(path: String) -> (parent: String)
    ensures
        parent@ == parent_path(path@),
        parent@.is_prefix_of(path@),
        path@ == seq!['/'] ==> parent@ == path@,
{
    let mut buf = camino::Utf8PathBuf::from(path);
    buf.pop();
    buf.into_string()
}

/// Whether `path` is absolute.
pub fn path_is_absolute(path: &str) -> (b: bool)
    ensures
        b == is_absolute(path@),
{
    let mut chars = path.chars();
    match chars.next() {
        Some(c) => c == '/',
        None => false,
    }
}

} // verus!
