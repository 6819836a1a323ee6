//! Lines and fields of a stored text.

use vstd::prelude::*;
use crate::bytes::{append, copy_range, find_byte, find_from, lemma_find_from, lemma_skip_run, nl, skip, skip_run, spec_is_space};

verus! {

/// The views of a list of byte strings.
pub open spec fn views(v: Seq<Vec<u8>>) -> Seq<Seq<u8>> {
    Seq::new(v.len(), |i: int| v[i]@)
}

/// `s` without one trailing carriage return.
pub open spec fn strip_cr(s: Seq<u8>) -> Seq<u8> {
    if s.len() > 0 && s.last() == 13u8 {
        s.drop_last()
    } else {
        s
    }
}

/// The lines of `s` from position `i` on. A line ends at a line feed or at
/// the end of the text; a text that ends with a line feed has no empty last
/// line.
pub open spec fn lines_from(s: Seq<u8>, i: int) -> Seq<Seq<u8>>
    decreases s.len() - i,
    via lines_from_decreases
{
    if i < 0 || i >= s.len() {
        Seq::empty()
    } else {
        let e = find_from(s, nl(), i);
        if e >= s.len() {
            seq![strip_cr(s.subrange(i, e))]
        } else {
            seq![strip_cr(s.subrange(i, e))] + lines_from(s, e + 1)
        }
    }
}

#[via_fn]
proof fn lines_from_decreases(s: Seq<u8>, i: int) {
    if !(i < 0 || i >= s.len()) {
        lemma_find_from(s, nl(), i);
    }
}

/// The lines of `s`.
pub open spec fn spec_lines(s: Seq<u8>) -> Seq<Seq<u8>> {
    lines_from(s, 0)
}

/// Splits `s` into its lines.
pub fn split_lines(s: &[u8]) -> (r: Vec<Vec<u8>>)
    ensures
        views(r@) == spec_lines(s@),
{
    let mut r: Vec<Vec<u8>> = Vec::new();
    let mut i: usize = 0;
    proof {
        assert(views(r@) + lines_from(s@, 0) =~= spec_lines(s@));
    }
    while i < s.len()
        invariant
            i <= s.len(),
            views(r@) + lines_from(s@, i as int) == spec_lines(s@),
        decreases s.len() - i,
    {
        let e = find_byte(s, 10u8, i);
        let mut end = e;
        if end > i && s[end - 1] == 13u8 {
            end = end - 1;
        }
        let line = copy_range(s, i, end);
        proof {
            lemma_find_from(s@, nl(), i as int);
            assert(line@ =~= strip_cr(s@.subrange(i as int, e as int)));
            let ghost before = views(r@);
            assert(views(r@.push(line)) =~= before.push(line@));
            if e < s.len() {
                assert(before.push(line@) + lines_from(s@, e + 1) =~= before + (seq![line@]
                    + lines_from(s@, e + 1)));
            } else {
                assert(lines_from(s@, e as int) =~= Seq::<Seq<u8>>::empty());
                assert(before.push(line@) + lines_from(s@, e as int) =~= before + seq![line@]);
            }
        }
        r.push(line);
        if e < s.len() {
            i = e + 1;
        } else {
            i = e;
        }
    }
    proof {
        assert(lines_from(s@, i as int) =~= Seq::<Seq<u8>>::empty());
        assert(views(r@) + Seq::<Seq<u8>>::empty() =~= views(r@));
    }
    r
}

/// The fields of `s` from position `i` on: the maximal runs of bytes that are
/// not white space.
pub open spec fn tokens_from(s: Seq<u8>, i: int) -> Seq<Seq<u8>>
    decreases s.len() - i,
    via tokens_from_decreases
{
    if i < 0 || i >= s.len() {
        Seq::empty()
    } else {
        let a = skip_run(s, true, i);
        if a >= s.len() {
            Seq::empty()
        } else {
            let b = skip_run(s, false, a);
            seq![s.subrange(a, b)] + tokens_from(s, b)
        }
    }
}

#[via_fn]
proof fn tokens_from_decreases(s: Seq<u8>, i: int) {
    if !(i < 0 || i >= s.len()) {
        lemma_skip_run(s, true, i);
        let a = skip_run(s, true, i);
        if a < s.len() {
            lemma_skip_run(s, false, a);
        }
    }
}

/// The fields of `s`.
pub open spec fn spec_tokens(s: Seq<u8>) -> Seq<Seq<u8>> {
    tokens_from(s, 0)
}

/// Splits `s` into its fields.
pub fn split_tokens(s: &[u8]) -> (r: Vec<Vec<u8>>)
    ensures
        views(r@) == spec_tokens(s@),
{
    let mut r: Vec<Vec<u8>> = Vec::new();
    let mut i: usize = 0;
    proof {
        assert(views(r@) + tokens_from(s@, 0) =~= spec_tokens(s@));
    }
    while i < s.len()
        invariant
            i <= s.len(),
            views(r@) + tokens_from(s@, i as int) == spec_tokens(s@),
        decreases s.len() - i,
    {
        let a = skip(s, true, i);
        proof {
            lemma_skip_run(s@, true, i as int);
        }
        if a >= s.len() {
            i = a;
            proof {
                assert(tokens_from(s@, a as int) =~= Seq::<Seq<u8>>::empty());
            }
        } else {
            let b = skip(s, false, a);
            proof {
                lemma_skip_run(s@, false, a as int);
            }
            let tok = copy_range(s, a, b);
            proof {
                let ghost before = views(r@);
                assert(views(r@.push(tok)) =~= before.push(tok@));
                assert(before.push(tok@) + tokens_from(s@, b as int) =~= before + (seq![tok@]
                    + tokens_from(s@, b as int)));
            }
            r.push(tok);
            i = b;
        }
    }
    proof {
        assert(tokens_from(s@, i as int) =~= Seq::<Seq<u8>>::empty());
        assert(views(r@) + Seq::<Seq<u8>>::empty() =~= views(r@));
    }
    r
}

/// The end of `s` once trailing white space is left out of its first `n`
/// bytes.
pub open spec fn trim_end(s: Seq<u8>, n: int) -> int
    decreases n,
{
    if n <= 0 || n > s.len() || !spec_is_space(s[n - 1]) {
        n
    } else {
        trim_end(s, n - 1)
    }
}

/// `s` without leading and trailing white space.
pub open spec fn spec_trim(s: Seq<u8>) -> Seq<u8> {
    let a = skip_run(s, true, 0);
    let b = trim_end(s, s.len() as int);
    if a >= b {
        Seq::empty()
    } else {
        s.subrange(a, b)
    }
}

/// `s` without leading and trailing white space.
pub fn trim(s: &[u8]) -> (r: Vec<u8>)
    ensures
        r@ == spec_trim(s@),
{
    let a = skip(s, true, 0);
    let mut b: usize = s.len();
    while b > 0 && is_space_at(s, b - 1)
        invariant
            b <= s.len(),
            trim_end(s@, s.len() as int) == trim_end(s@, b as int),
        decreases b,
    {
        b -= 1;
    }
    if a >= b {
        Vec::new()
    } else {
        copy_range(s, a, b)
    }
}

fn is_space_at(s: &[u8], i: usize) -> (r: bool)
    requires
        i < s.len(),
    ensures
        r == spec_is_space(s@[i as int]),
{
    crate::bytes::is_space(s[i])
}

/// The byte strings of `parts` with `sep` between each two.
pub open spec fn spec_join(parts: Seq<Seq<u8>>, sep: Seq<u8>) -> Seq<u8>
    decreases parts.len(),
{
    if parts.len() == 0 {
        Seq::empty()
    } else if parts.len() == 1 {
        parts[0]
    } else {
        spec_join(parts.drop_last(), sep) + sep + parts.last()
    }
}

/// The byte strings of `parts` with `sep` between each two.
pub fn join(parts: &Vec<Vec<u8>>, sep: &[u8]) -> (r: Vec<u8>)
    ensures
        r@ == spec_join(views(parts@), sep@),
{
    let mut r: Vec<u8> = Vec::new();
    let mut i: usize = 0;
    while i < parts.len()
        invariant
            i <= parts.len(),
            r@ == spec_join(views(parts@).subrange(0, i as int), sep@),
        decreases parts.len() - i,
    {
        proof {
            let ghost p = views(parts@).subrange(0, i + 1);
            assert(p.drop_last() =~= views(parts@).subrange(0, i as int));
            assert(p.last() == parts@[i as int]@);
        }
        if i > 0 {
            append(&mut r, sep);
        }
        append(&mut r, parts[i].as_slice());
        proof {
            if i == 0 {
                assert(r@ =~= parts@[0]@);
            }
        }
        i += 1;
    }
    proof {
        assert(views(parts@).subrange(0, parts.len() as int) =~= views(parts@));
    }
    r
}

} // verus!
