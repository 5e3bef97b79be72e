//! Verified helpers over byte strings: searching, slicing, splitting,
//! trimming and decimal rendering. Every executable function is pinned to
//! a spec function (or a first-occurrence characterization) so that the
//! parsing layer above can state exact contracts.

use vstd::prelude::*;

verus! {

/// The sequence of views of a vector of byte vectors.
pub open spec fn views_of(vs: Seq<Vec<u8>>) -> Seq<Seq<u8>> {
    vs.map_values(|v: Vec<u8>| v@)
}

pub proof fn lemma_views_push(vs: Seq<Vec<u8>>, x: Vec<u8>)
    ensures
        views_of(vs.push(x)) == views_of(vs).push(x@),
{
    assert(views_of(vs.push(x)) =~= views_of(vs).push(x@));
}

/// The sequence of view pairs of a vector of byte-vector pairs.
pub open spec fn pair_views(s: Seq<(Vec<u8>, Vec<u8>)>) -> Seq<(Seq<u8>, Seq<u8>)> {
    s.map_values(|p: (Vec<u8>, Vec<u8>)| (p.0@, p.1@))
}

pub proof fn lemma_pair_views_push(s: Seq<(Vec<u8>, Vec<u8>)>, x: (Vec<u8>, Vec<u8>))
    ensures
        pair_views(s.push(x)) == pair_views(s).push((x.0@, x.1@)),
{
    assert(pair_views(s.push(x)) =~= pair_views(s).push((x.0@, x.1@)));
}

/// Copies a byte string into a fresh vector.
pub fn to_vec_bytes(s: &[u8]) -> (r: Vec<u8>)
    ensures
        r@ == s@,
{
    let r = bytes_sub(s, 0, s.len());
    proof {
        assert(s@.subrange(0, s@.len() as int) =~= s@);
    }
    r
}

/// Index of the first occurrence of `c` in `s` at or after `from`;
/// `s.len()` when there is none.
pub open spec fn first_index_from(s: Seq<u8>, c: u8, from: int) -> int
    decreases s.len() - from,
{
    if from < 0 || from >= s.len() {
        s.len() as int
    } else if s[from] == c {
        from
    } else {
        first_index_from(s, c, from + 1)
    }
}

pub proof fn lemma_first_index_from(s: Seq<u8>, c: u8, from: int)
    requires
        0 <= from <= s.len(),
    ensures
        from <= first_index_from(s, c, from) <= s.len(),
        first_index_from(s, c, from) < s.len() ==> s[first_index_from(s, c, from)] == c,
        forall|j: int| from <= j < first_index_from(s, c, from) ==> s[j] != c,
    decreases s.len() - from,
{
    if from < s.len() && s[from] != c {
        lemma_first_index_from(s, c, from + 1);
    }
}

/// First index where the two-byte sequence `c0 c1` occurs at or after
/// `from`; `s.len()` when there is none.
pub open spec fn first_index2_from(s: Seq<u8>, c0: u8, c1: u8, from: int) -> int
    decreases s.len() - from,
{
    if from < 0 || from + 2 > s.len() {
        s.len() as int
    } else if s[from] == c0 && s[from + 1] == c1 {
        from
    } else {
        first_index2_from(s, c0, c1, from + 1)
    }
}

pub proof fn lemma_first_index2_from(s: Seq<u8>, c0: u8, c1: u8, from: int)
    requires
        0 <= from <= s.len(),
    ensures
        from <= first_index2_from(s, c0, c1, from) <= s.len(),
        first_index2_from(s, c0, c1, from) < s.len() ==> first_index2_from(s, c0, c1, from) + 2
            <= s.len() && s[first_index2_from(s, c0, c1, from)] == c0 && s[first_index2_from(
            s,
            c0,
            c1,
            from,
        ) + 1] == c1,
    decreases s.len() - from,
{
    if from + 2 <= s.len() && !(s[from] == c0 && s[from + 1] == c1) {
        lemma_first_index2_from(s, c0, c1, from + 1);
    }
}

/// Finds the first occurrence of `c` at or after `from`; returns `s.len()`
/// when absent.
pub fn find_byte_from(s: &[u8], c: u8, from: usize) -> (r: usize)
    requires
        from <= s@.len(),
    ensures
        r as int == first_index_from(s@, c, from as int),
        r <= s@.len(),
    decreases s@.len() - from,
{
    let mut i: usize = from;
    while i < s.len()
        invariant
            from <= i <= s@.len(),
            first_index_from(s@, c, from as int) == first_index_from(s@, c, i as int),
        decreases s@.len() - i,
    {
        if s[i] == c {
            return i;
        }
        i = i + 1;
    }
    i
}

/// Finds the first occurrence of the pair `c0 c1` at or after `from`;
/// returns `s.len()` when absent.
pub fn find_byte2_from(s: &[u8], c0: u8, c1: u8, from: usize) -> (r: usize)
    requires
        from <= s@.len(),
    ensures
        r as int == first_index2_from(s@, c0, c1, from as int),
        r <= s@.len(),
{
    let mut i: usize = from;
    while i < s.len() && i + 1 < s.len()
        invariant
            from <= i <= s@.len(),
            first_index2_from(s@, c0, c1, from as int) == first_index2_from(s@, c0, c1, i as int),
        decreases s@.len() - i,
    {
        if s[i] == c0 && s[i + 1] == c1 {
            return i;
        }
        i = i + 1;
    }
    s.len()
}

/// True exactly when the two byte strings hold the same bytes.
pub fn bytes_eq(a: &[u8], b: &[u8]) -> (r: bool)
    ensures
        r == (a@ == b@),
{
    if a.len() != b.len() {
        return false;
    }
    let mut i: usize = 0;
    while i < a.len()
        invariant
            i <= a@.len(),
            a@.len() == b@.len(),
            forall|j: int| 0 <= j < i ==> a@[j] == b@[j],
        decreases a@.len() - i,
    {
        if a[i] != b[i] {
            return false;
        }
        i = i + 1;
    }
    proof {
        assert(a@ =~= b@);
    }
    true
}

/// Copies `s[a..b]` into a fresh vector.
pub fn bytes_sub(s: &[u8], a: usize, b: usize) -> (r: Vec<u8>)
    requires
        a <= b <= s@.len(),
    ensures
        r@ == s@.subrange(a as int, b as int),
{
    let mut r: Vec<u8> = Vec::new();
    let mut i: usize = a;
    while i < b
        invariant
            a <= i <= b <= s@.len(),
            r@ == s@.subrange(a as int, i as int),
        decreases b - i,
    {
        r.push(s[i]);
        proof {
            assert(r@ =~= s@.subrange(a as int, i + 1 as int));
        }
        i = i + 1;
    }
    r
}

/// Appends all of `s` onto `out`.
pub fn push_all(out: &mut Vec<u8>, s: &[u8])
    ensures
        final(out)@ == old(out)@ + s@,
{
    let mut i: usize = 0;
    while i < s.len()
        invariant
            i <= s@.len(),
            out@ == old(out)@ + s@.subrange(0, i as int),
        decreases s@.len() - i,
    {
        out.push(s[i]);
        proof {
            assert(old(out)@ + s@.subrange(0, i + 1 as int) =~= (old(out)@ + s@.subrange(
                0,
                i as int,
            )).push(s@[i as int]));
        }
        i = i + 1;
    }
    proof {
        assert(s@.subrange(0, s@.len() as int) =~= s@);
    }
}

/// The pieces of `s` split on `c`, processing from position `i` with the
/// current piece starting at `start`. Splitting never yields zero pieces.
pub open spec fn split_from(s: Seq<u8>, c: u8, i: int, start: int) -> Seq<Seq<u8>>
    decreases s.len() - i,
{
    if i < 0 || i >= s.len() {
        seq![s.subrange(start, s.len() as int)]
    } else if s[i] == c {
        seq![s.subrange(start, i)] + split_from(s, c, i + 1, i + 1)
    } else {
        split_from(s, c, i + 1, start)
    }
}

/// The pieces of `s` split on the separator `c`, as `str::split` yields
/// them: adjacent separators and separators at the ends produce empty
/// pieces, and the result always has at least one piece.
pub open spec fn split_spec(s: Seq<u8>, c: u8) -> Seq<Seq<u8>> {
    split_from(s, c, 0, 0)
}

/// Splits `s` on the byte `c`.
pub fn split_bytes(s: &[u8], c: u8) -> (r: Vec<Vec<u8>>)
    ensures
        views_of(r@) == split_spec(s@, c),
        r@.len() >= 1,
{
    let mut r: Vec<Vec<u8>> = Vec::new();
    let mut start: usize = 0;
    let mut i: usize = 0;
    while i < s.len()
        invariant
            start <= i <= s@.len(),
            split_spec(s@, c) == views_of(r@) + split_from(s@, c, i as int, start as int),
        decreases s@.len() - i,
    {
        if s[i] == c {
            let piece = bytes_sub(s, start, i);
            proof {
                lemma_views_push(r@, piece);
                assert(views_of(r@.push(piece)) + split_from(s@, c, i + 1, i + 1) =~= views_of(r@)
                    + split_from(s@, c, i as int, start as int));
            }
            r.push(piece);
            start = i + 1;
        } else {
            i = i + 1;
            continue;
        }
        i = i + 1;
    }
    let piece = bytes_sub(s, start, s.len());
    proof {
        lemma_views_push(r@, piece);
        assert(views_of(r@.push(piece)) =~= views_of(r@) + split_from(
            s@,
            c,
            i as int,
            start as int,
        ));
    }
    r.push(piece);
    r
}

/// True when `n` occurs contiguously somewhere in `h`.
pub open spec fn contains_seq(h: Seq<u8>, n: Seq<u8>) -> bool {
    exists|i: int| 0 <= i && i + n.len() <= h.len() && #[trigger] h.subrange(i, i + n.len()) == n
}

/// Substring search, as `str::contains` decides it.
pub fn contains_bytes(h: &[u8], n: &[u8]) -> (r: bool)
    ensures
        r == contains_seq(h@, n@),
{
    if n.len() > h.len() {
        proof {
            assert forall|k: int| !(0 <= k && k + n@.len() <= h@.len() && #[trigger] h@.subrange(
                k,
                k + n@.len(),
            ) == n@) by {}
        }
        return false;
    }
    let end: usize = h.len() - n.len();
    let mut i: usize = 0;
    loop
        invariant
            n@.len() <= h@.len(),
            h@.len() <= usize::MAX,
            end == h@.len() - n@.len(),
            i <= end,
            forall|j: int| 0 <= j < i ==> #[trigger] h@.subrange(j, j + n@.len()) != n@,
        decreases end - i,
    {
        assert(i + n@.len() <= h@.len());
        let piece = bytes_sub(h, i, i + n.len());
        if bytes_eq(piece.as_slice(), n) {
            assert(h@.subrange(i as int, i + n@.len()) == n@);
            return true;
        }
        if i == end {
            proof {
                assert forall|k: int| !(0 <= k && k + n@.len() <= h@.len()
                    && #[trigger] h@.subrange(k, k + n@.len()) == n@) by {
                    if 0 <= k && k + n@.len() <= h@.len() {
                        assert(k <= end);
                        assert(h@.subrange(k, k + n@.len()) != n@);
                    }
                }
            }
            return false;
        }
        i = i + 1;
    }
}

/// ASCII whitespace, the bytes that `char::is_whitespace` accepts below
/// 128: space, tab, line feed, vertical tab, form feed, carriage return.
pub open spec fn is_ws(b: u8) -> bool {
    b == 32 || b == 9 || b == 10 || b == 11 || b == 12 || b == 13
}

/// Executable twin of `is_ws`.
pub fn is_ws_byte(b: u8) -> (r: bool)
    ensures
        r == is_ws(b),
{
    b == 32 || b == 9 || b == 10 || b == 11 || b == 12 || b == 13
}

/// Index of the first non-whitespace byte at or after `from`; `s.len()`
/// when all the rest is whitespace.
pub open spec fn first_nonws_from(s: Seq<u8>, from: int) -> int
    decreases s.len() - from,
{
    if from < 0 || from >= s.len() {
        s.len() as int
    } else if is_ws(s[from]) {
        first_nonws_from(s, from + 1)
    } else {
        from
    }
}

pub proof fn lemma_first_nonws_from(s: Seq<u8>, from: int)
    requires
        0 <= from <= s.len(),
    ensures
        from <= first_nonws_from(s, from) <= s.len(),
        first_nonws_from(s, from) < s.len() ==> !is_ws(s[first_nonws_from(s, from)]),
    decreases s.len() - from,
{
    if from < s.len() && is_ws(s[from]) {
        lemma_first_nonws_from(s, from + 1);
    }
}

/// One past the last non-whitespace byte strictly before `upto`; `0` when
/// everything before `upto` is whitespace.
pub open spec fn last_nonws_before(s: Seq<u8>, upto: int) -> int
    decreases upto,
{
    if upto <= 0 || upto > s.len() {
        0
    } else if is_ws(s[upto - 1]) {
        last_nonws_before(s, upto - 1)
    } else {
        upto
    }
}

pub proof fn lemma_last_nonws_before(s: Seq<u8>, upto: int)
    requires
        0 <= upto <= s.len(),
    ensures
        0 <= last_nonws_before(s, upto) <= upto,
        last_nonws_before(s, upto) > 0 ==> !is_ws(s[last_nonws_before(s, upto) - 1]),
    decreases upto,
{
    if 0 < upto && is_ws(s[upto - 1]) {
        lemma_last_nonws_before(s, upto - 1);
    }
}

/// `s` with leading and trailing whitespace removed, as `str::trim` does
/// for ASCII text.
pub open spec fn trim_spec(s: Seq<u8>) -> Seq<u8> {
    let a = first_nonws_from(s, 0);
    let b = last_nonws_before(s, s.len() as int);
    if a >= b {
        Seq::empty()
    } else {
        s.subrange(a, b)
    }
}

/// Removes leading and trailing whitespace.
pub fn trim_bytes(s: &[u8]) -> (r: Vec<u8>)
    ensures
        r@ == trim_spec(s@),
{
    let mut a: usize = 0;
    while a < s.len() && is_ws_byte(s[a])
        invariant
            a <= s@.len(),
            first_nonws_from(s@, 0) == first_nonws_from(s@, a as int),
        decreases s@.len() - a,
    {
        a = a + 1;
    }
    let mut b: usize = s.len();
    while b > 0 && is_ws_byte(s[b - 1])
        invariant
            b <= s@.len(),
            last_nonws_before(s@, s@.len() as int) == last_nonws_before(s@, b as int),
        decreases b,
    {
        b = b - 1;
    }
    proof {
        lemma_first_nonws_from(s@, 0);
        lemma_last_nonws_before(s@, s@.len() as int);
    }
    if a >= b {
        proof {
            assert(first_nonws_from(s@, a as int) == a as int);
            assert(last_nonws_before(s@, b as int) == b as int || b == 0);
        }
        Vec::new()
    } else {
        bytes_sub(s, a, b)
    }
}

/// `s` with every whitespace byte removed, the normalization a JSON body
/// receives.
pub open spec fn strip_ws_from(s: Seq<u8>, i: int) -> Seq<u8>
    decreases s.len() - i,
{
    if i < 0 || i >= s.len() {
        Seq::empty()
    } else if is_ws(s[i]) {
        strip_ws_from(s, i + 1)
    } else {
        seq![s[i]] + strip_ws_from(s, i + 1)
    }
}

/// Removes every whitespace byte.
pub fn strip_ws(s: &[u8]) -> (r: Vec<u8>)
    ensures
        r@ == strip_ws_from(s@, 0),
{
    let mut r: Vec<u8> = Vec::new();
    let mut i: usize = 0;
    while i < s.len()
        invariant
            i <= s@.len(),
            strip_ws_from(s@, 0) == r@ + strip_ws_from(s@, i as int),
        decreases s@.len() - i,
    {
        if !is_ws_byte(s[i]) {
            r.push(s[i]);
            proof {
                assert(r@ + strip_ws_from(s@, i + 1) =~= r@.drop_last() + (seq![s@[i as int]]
                    + strip_ws_from(s@, i + 1)));
            }
        }
        i = i + 1;
    }
    proof {
        assert(r@ + strip_ws_from(s@, s@.len() as int) =~= r@);
    }
    r
}

/// Index of the first byte differing from `c` at or after `from`.
pub open spec fn first_not_from(s: Seq<u8>, c: u8, from: int) -> int
    decreases s.len() - from,
{
    if from < 0 || from >= s.len() {
        s.len() as int
    } else if s[from] == c {
        first_not_from(s, c, from + 1)
    } else {
        from
    }
}

/// One past the last byte differing from `c` strictly before `upto`.
pub open spec fn last_not_before(s: Seq<u8>, c: u8, upto: int) -> int
    decreases upto,
{
    if upto <= 0 || upto > s.len() {
        0
    } else if s[upto - 1] == c {
        last_not_before(s, c, upto - 1)
    } else {
        upto
    }
}

/// `s` with every leading and trailing `c` removed, as
/// `str::trim_matches` does for a single-character pattern.
pub open spec fn trim_byte_spec(s: Seq<u8>, c: u8) -> Seq<u8> {
    let a = first_not_from(s, c, 0);
    let b = last_not_before(s, c, s.len() as int);
    if a >= b {
        Seq::empty()
    } else {
        s.subrange(a, b)
    }
}

/// Removes every leading and trailing `c`.
pub fn trim_byte_ends(s: &[u8], c: u8) -> (r: Vec<u8>)
    ensures
        r@ == trim_byte_spec(s@, c),
{
    let mut a: usize = 0;
    while a < s.len() && s[a] == c
        invariant
            a <= s@.len(),
            first_not_from(s@, c, 0) == first_not_from(s@, c, a as int),
        decreases s@.len() - a,
    {
        a = a + 1;
    }
    let mut b: usize = s.len();
    while b > 0 && s[b - 1] == c
        invariant
            b <= s@.len(),
            last_not_before(s@, c, s@.len() as int) == last_not_before(s@, c, b as int),
        decreases b,
    {
        b = b - 1;
    }
    if a >= b {
        Vec::new()
    } else {
        bytes_sub(s, a, b)
    }
}

/// The lines from position `i` on, joined with nothing between them,
/// empty lines skipped: how a request body is reassembled.
pub open spec fn concat_nonempty_from(ls: Seq<Seq<u8>>, i: int) -> Seq<u8>
    decreases ls.len() - i,
{
    if i < 0 || i >= ls.len() {
        Seq::empty()
    } else if ls[i].len() == 0 {
        concat_nonempty_from(ls, i + 1)
    } else {
        ls[i] + concat_nonempty_from(ls, i + 1)
    }
}

/// The decimal digits of `n`, most significant first.
pub open spec fn dec_of(n: nat) -> Seq<u8>
    decreases n,
{
    if n < 10 {
        seq![(48 + n) as u8]
    } else {
        dec_of(n / 10).push((48 + n % 10) as u8)
    }
}

/// Appends the decimal rendering of `n` onto `out`.
pub fn push_dec(out: &mut Vec<u8>, n: u16)
    ensures
        final(out)@ == old(out)@ + dec_of(n as nat),
    decreases n,
{
    if n < 10 {
        out.push(48 + (n as u8));
    } else {
        push_dec(out, n / 10);
        out.push(48 + ((n % 10) as u8));
        proof {
            assert(out@ =~= old(out)@ + dec_of(n as nat));
        }
    }
}

} // verus!
