//! Cursor arithmetic over the bytes of a request path.

use vstd::prelude::*;
use vstd::string::StringSliceAdditionalSpecFns;

verus! {

/// The byte `/`.
pub const SLASH: u8 = 47;

/// Index of the first `/` of `b` at or after `start`, or the length of `b`
/// when there is none.
pub open spec fn next_slash(b: Seq<u8>, start: int) -> int
    decreases b.len() - start,
{
    if start >= b.len() {
        b.len() as int
    } else if b[start] == SLASH {
        start
    } else {
        next_slash(b, start + 1)
    }
}

/// Find the index of a next forward slash after the given `start` index in
/// the path. When there are no more slashes, returns the index after the end
/// of the path.
pub fn find_next_slash_index(path: &str, start: usize) -> (r: usize)
    requires
        start <= path.spec_bytes().len(),
    ensures
        r == next_slash(path.spec_bytes(), start as int),
{
    let b = path.as_bytes();
    let mut i: usize = start;
    while i < b.len()
        invariant
            start <= i <= b@.len(),
            b@ == path.spec_bytes(),
            next_slash(b@, start as int) == next_slash(b@, i as int),
        decreases b@.len() - i,
    {
        if b[i] == SLASH {
            return i;
        }
        i = i + 1;
    }
    b.len()
}

} // verus!
