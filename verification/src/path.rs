//! Telling remote locations (with a URL scheme) from local paths.

use vstd::prelude::*;

verus! {

/// "://" starts at position `i` of `s`.
pub open spec fn separator_at(s: Seq<char>, i: int) -> bool {
    0 <= i && i + 3 <= s.len() && s[i] == ':' && s[i + 1] == '/' && s[i + 2] == '/'
}

/// `s` contains "://".
pub open spec fn has_scheme_separator(s: Seq<char>) -> bool {
    exists|i: int| #[trigger] separator_at(s, i)
}

/// A location with a scheme ("s3://…", "https://…", "file://…") is opened
/// through the object store; anything else is a local file path.
pub fn is_remote_path(path: &str) -> (r: bool)
    ensures
        r == has_scheme_separator(path@),
{
    let n = path.unicode_len();
    if n < 3 {
        proof {
            assert forall|j: int| !#[trigger] separator_at(path@, j) by {}
        }
        return false;
    }
    let mut i: usize = 0;
    while i <= n - 3
        invariant
            n == path@.len(),
            n >= 3,
            i + 3 <= n + 1,
            forall|j: int| 0 <= j < i ==> !#[trigger] separator_at(path@, j),
        decreases n - i,
    {
        if path.get_char(i) == ':' && path.get_char(i + 1) == '/' && path.get_char(i + 2) == '/' {
            proof {
                assert(separator_at(path@, i as int));
            }
            return true;
        }
        i = i + 1;
    }
    proof {
        assert forall|j: int| !#[trigger] separator_at(path@, j) by {
            if separator_at(path@, j) {
                assert(j < i);
            }
        }
    }
    false
}

} // verus!
