//! Turning a request or registration path into its segment sequence.
//! Trailing slashes are trimmed before splitting, so `/a/` and `/a` name
//! the same route, and the empty leading segment (from the leading `/`)
//! is always present as the tree root's identity.

use crate::bytes::{bytes_sub, split_bytes, split_spec, views_of};
use crate::slash;
use vstd::prelude::*;

verus! {

/// `s` with every trailing `/` removed.
pub open spec fn trim_trailing_slashes(s: Seq<u8>) -> Seq<u8>
    decreases s.len(),
{
    if s.len() > 0 && s[s.len() - 1] == slash() {
        trim_trailing_slashes(s.drop_last())
    } else {
        s
    }
}

/// The segment sequence of a path: trailing slashes trimmed, split on
/// `/`, with the empty leading segment made explicit when the path does
/// not start with `/`.
pub open spec fn path_segments_spec(s: Seq<u8>) -> Seq<Seq<u8>> {
    let parts = split_spec(trim_trailing_slashes(s), slash());
    if parts[0].len() == 0 {
        parts
    } else {
        seq![Seq::<u8>::empty()] + parts
    }
}

/// A request path with a trailing slash yields the same segments as the
/// path without it, so both match the same route.
pub proof fn lemma_trailing_slash_irrelevant(s: Seq<u8>)
    ensures
        path_segments_spec(s.push(slash())) == path_segments_spec(s),
{
    assert(s.push(slash()).drop_last() =~= s);
}

/// Splits a path into its segments.
pub fn path_segments(s: &[u8]) -> (r: Vec<Vec<u8>>)
    ensures
        views_of(r@) == path_segments_spec(s@),
        r@.len() >= 1,
        r@[0]@ == Seq::<u8>::empty(),
{
    let mut b: usize = s.len();
    proof {
        assert(s@.subrange(0, s@.len() as int) =~= s@);
    }
    while b > 0 && s[b - 1] == 47u8
        invariant
            b <= s@.len(),
            trim_trailing_slashes(s@) == trim_trailing_slashes(s@.subrange(0, b as int)),
        decreases b,
    {
        proof {
            assert(s@.subrange(0, b as int).drop_last() =~= s@.subrange(0, b - 1 as int));
        }
        b = b - 1;
    }
    proof {
        assert(trim_trailing_slashes(s@) == s@.subrange(0, b as int));
    }
    let trimmed = bytes_sub(s, 0, b);
    let mut parts = split_bytes(trimmed.as_slice(), 47u8);
    assert(views_of(parts@)[0] == parts@[0]@);
    if parts[0].len() == 0 {
        parts
    } else {
        let empty: Vec<u8> = Vec::new();
        proof {
            assert(views_of(parts@.insert(0, empty)) =~= seq![Seq::<u8>::empty()] + views_of(
                parts@,
            ));
        }
        parts.insert(0, empty);
        parts
    }
}

} // verus!
