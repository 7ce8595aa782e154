//! File paths as texts.

use vstd::prelude::*;

use crate::models::opt_text;
use crate::text::contains;

verus! {

/// The text is one plain component of a path on every platform.
pub open spec fn is_plain_component(s: Seq<char>) -> bool {
    &&& s.len() > 0
    &&& !s.contains('/')
    &&& !s.contains('\\')
    &&& !s.contains(':')
    &&& s != "."@
    &&& s != ".."@
}

/// `name` can be the final component of `path`. What counts as a separator
/// depends on the platform, so this says what holds on each of them: an empty
/// path has no final component, a final component is a part of the path, a plain
/// component is its own final component, and so is one behind a slash.
pub open spec fn can_be_file_name(path: Seq<char>, name: Option<Seq<char>>) -> bool {
    &&& path.len() == 0 ==> name is None
    &&& name matches Some(n) ==> n.len() > 0 && contains(path, n)
    &&& is_plain_component(path) ==> name == Some(path)
    &&& forall|dir: Seq<char>, base: Seq<char>|
        path == #[trigger] (dir + "/"@ + base) && is_plain_component(base) && !path.contains('\\')
            && !"//"@.is_prefix_of(path) ==> name == Some(base)
}

/// `std::path::Path::file_name`: the final component of the path, if there is
/// one. The separators are those of the platform, so only what holds on each
/// platform is claimed.
#[verifier::external_body]
pub(crate) fn file_name(path: &str) -> (r: Option<String>)
    ensures
        can_be_file_name(path@, opt_text(r)),
{
    std::path::Path::new(path).file_name().and_then(|name| name.to_str()).map(|name| name.to_owned())
}

} // verus!
