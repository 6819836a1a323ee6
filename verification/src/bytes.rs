//! Byte-string helpers shared by the parsers and serialisers.
//!
//! Every text the engine stores is treated as a sequence of bytes. Lines end
//! at a line feed, an optional carriage return before it is dropped, and
//! fields are separated by runs of ASCII white space.

use vstd::prelude::*;

verus! {

/// The line feed byte.
pub open spec fn nl() -> u8 {
    10u8
}

/// The bytes that separate fields: space, tab, line feed, vertical tab, form
/// feed and carriage return.
pub open spec fn spec_is_space(b: u8) -> bool {
    b == 32 || (9 <= b && b <= 13)
}

/// True when `b` separates fields.
pub fn is_space(b: u8) -> (r: bool)
    ensures
        r == spec_is_space(b),
{
    b == 32 || (9 <= b && b <= 13)
}

/// A byte string without white space and with at least one byte: what a
/// field of a stored line can hold and give back unchanged.
pub open spec fn is_token(s: Seq<u8>) -> bool {
    &&& s.len() > 0
    &&& forall|i: int| 0 <= i < s.len() ==> !spec_is_space(#[trigger] s[i])
}

/// True when `a` and `b` hold the same bytes.
pub fn bytes_eq(a: &[u8], b: &[u8]) -> (r: bool)
    ensures
        r == (a@ == b@),
{
    if a.len() != b.len() {
        return false;
    }
    let mut i: usize = 0;
    while i < a.len()
        invariant
            a.len() == b.len(),
            i <= a.len(),
            forall|k: int| 0 <= k < i ==> a@[k] == b@[k],
        decreases a.len() - i,
    {
        if a[i] != b[i] {
            return false;
        }
        i += 1;
    }
    proof {
        assert(a@ =~= b@);
    }
    true
}

/// Appends the bytes of `s` to `v`.
pub fn append(v: &mut Vec<u8>, s: &[u8])
    ensures
        final(v)@ == old(v)@ + s@,
{
    let mut i: usize = 0;
    while i < s.len()
        invariant
            i <= s.len(),
            v@ == old(v)@ + s@.subrange(0, i as int),
        decreases s.len() - i,
    {
        v.push(s[i]);
        proof {
            assert(s@.subrange(0, i + 1) =~= s@.subrange(0, i as int).push(s@[i as int]));
            assert(v@ =~= old(v)@ + s@.subrange(0, i + 1));
        }
        i += 1;
    }
    proof {
        assert(s@.subrange(0, s.len() as int) =~= s@);
    }
}

/// A copy of the bytes of `s` from `from` up to `to`.
pub fn copy_range(s: &[u8], from: usize, to: usize) -> (r: Vec<u8>)
    requires
        from <= to <= s.len(),
    ensures
        r@ == s@.subrange(from as int, to as int),
{
    let mut r: Vec<u8> = Vec::new();
    let mut i: usize = from;
    while i < to
        invariant
            from <= i <= to <= s.len(),
            r@ == s@.subrange(from as int, i as int),
        decreases to - i,
    {
        r.push(s[i]);
        proof {
            assert(s@.subrange(from as int, i + 1) =~= s@.subrange(from as int, i as int).push(
                s@[i as int],
            ));
        }
        i += 1;
    }
    r
}

/// True when `s` begins with the bytes of `p`.
pub fn starts_with(s: &[u8], p: &[u8]) -> (r: bool)
    ensures
        r == p@.is_prefix_of(s@),
{
    if p.len() > s.len() {
        return false;
    }
    let mut i: usize = 0;
    while i < p.len()
        invariant
            p.len() <= s.len(),
            i <= p.len(),
            forall|k: int| 0 <= k < i ==> s@[k] == p@[k],
        decreases p.len() - i,
    {
        if s[i] != p[i] {
            return false;
        }
        i += 1;
    }
    proof {
        assert(s@.subrange(0, p@.len() as int) =~= p@);
    }
    true
}

/// The first position at or after `i` that holds `b`, or the length of `s`
/// (or `i` itself, if that is larger) where there is none.
pub open spec fn find_from(s: Seq<u8>, b: u8, i: int) -> int
    decreases s.len() - i,
{
    if i >= s.len() || s[i] == b {
        i
    } else {
        find_from(s, b, i + 1)
    }
}

/// What `find_from` promises: the first position from `i` on that holds `b`.
pub proof fn lemma_find_from(s: Seq<u8>, b: u8, i: int)
    requires
        0 <= i <= s.len(),
    ensures
        i <= find_from(s, b, i) <= s.len(),
        find_from(s, b, i) < s.len() ==> s[find_from(s, b, i)] == b,
        forall|k: int| i <= k < find_from(s, b, i) ==> s[k] != b,
    decreases s.len() - i,
{
    if i >= s.len() || s[i] == b {
    } else {
        lemma_find_from(s, b, i + 1);
    }
}

/// Any position that holds `b` with no `b` before it, from `i` on, is the one
/// that `find_from` gives.
pub proof fn lemma_find_from_is(s: Seq<u8>, b: u8, i: int, e: int)
    requires
        0 <= i <= e <= s.len(),
        e < s.len() ==> s[e] == b,
        forall|k: int| i <= k < e ==> s[k] != b,
    ensures
        find_from(s, b, i) == e,
    decreases e - i,
{
    if i < e {
        lemma_find_from_is(s, b, i + 1, e);
    }
}

/// The first position at or after `start` that holds `b`, or the length of
/// `s`.
pub fn find_byte(s: &[u8], b: u8, start: usize) -> (r: usize)
    requires
        start <= s.len(),
    ensures
        r == find_from(s@, b, start as int),
        start <= r <= s.len(),
{
    let mut i: usize = start;
    while i < s.len() && s[i] != b
        invariant
            start <= i <= s.len(),
            find_from(s@, b, start as int) == find_from(s@, b, i as int),
        decreases s.len() - i,
    {
        i += 1;
    }
    i
}

/// The first position at or after `i` whose byte is white space (`space` is
/// false) or is not (`space` is true): the end of the run that starts at `i`.
pub open spec fn skip_run(s: Seq<u8>, space: bool, i: int) -> int
    decreases s.len() - i,
{
    if i >= s.len() || spec_is_space(s[i]) != space {
        i
    } else {
        skip_run(s, space, i + 1)
    }
}

/// What `skip_run` promises: the end of the run that starts at `i`.
pub proof fn lemma_skip_run(s: Seq<u8>, space: bool, i: int)
    requires
        0 <= i <= s.len(),
    ensures
        i <= skip_run(s, space, i) <= s.len(),
        skip_run(s, space, i) < s.len() ==> spec_is_space(s[skip_run(s, space, i)]) != space,
        forall|k: int| i <= k < skip_run(s, space, i) ==> spec_is_space(s[k]) == space,
        (i < s.len() && spec_is_space(s[i]) == space) ==> i < skip_run(s, space, i),
    decreases s.len() - i,
{
    if i >= s.len() || spec_is_space(s[i]) != space {
    } else {
        lemma_skip_run(s, space, i + 1);
    }
}

/// A position that ends a run from `i` on is the one that `skip_run` gives.
pub proof fn lemma_skip_run_is(s: Seq<u8>, space: bool, i: int, e: int)
    requires
        0 <= i <= e <= s.len(),
        e < s.len() ==> spec_is_space(s[e]) != space,
        forall|k: int| i <= k < e ==> spec_is_space(s[k]) == space,
    ensures
        skip_run(s, space, i) == e,
    decreases e - i,
{
    if i < e {
        lemma_skip_run_is(s, space, i + 1, e);
    }
}

/// The end of the run of white space (`space` is true) or of other bytes
/// (`space` is false) that starts at `start`.
pub fn skip(s: &[u8], space: bool, start: usize) -> (r: usize)
    requires
        start <= s.len(),
    ensures
        r == skip_run(s@, space, start as int),
        start <= r <= s.len(),
{
    let mut i: usize = start;
    while i < s.len() && is_space(s[i]) == space
        invariant
            start <= i <= s.len(),
            skip_run(s@, space, start as int) == skip_run(s@, space, i as int),
        decreases s.len() - i,
    {
        i += 1;
    }
    i
}

} // verus!
