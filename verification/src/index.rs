//! The index: the blob hash of each tracked path, and its stored text.
//!
//! The index file holds one line `<hash> <path>` for each tracked path, the
//! lines separated by line feeds.

use vstd::prelude::*;
use crate::bytemap::{distinct_keys, lemma_insert_lookup, spec_insert, ByteMap, Pairs};
use crate::bytes::{append, copy_range, is_token};
use crate::error::FitError;
use crate::repo::Repository;
use crate::text::{join, spec_join, spec_lines, spec_tokens, split_lines, split_tokens, views};

verus! {

/// Path and hash of one stored line: the fields at `path_col` and at
/// `hash_col`. `None` where the line has too few fields.
pub open spec fn row_entry(line: Seq<u8>, hash_col: int, path_col: int) -> Option<
    (Seq<u8>, Seq<u8>),
> {
    let t = spec_tokens(line);
    if hash_col < t.len() && path_col < t.len() {
        Some((t[path_col], t[hash_col]))
    } else {
        None
    }
}

/// The map that a list of lines stands for: each line's path with its hash,
/// a later line replacing an earlier one for the same path. `None` where a
/// line has too few fields.
pub open spec fn rows_of(lines: Seq<Seq<u8>>, hash_col: int, path_col: int) -> Option<Pairs>
    decreases lines.len(),
{
    if lines.len() == 0 {
        Some(Pairs::empty())
    } else {
        match (
            rows_of(lines.drop_last(), hash_col, path_col),
            row_entry(lines.last(), hash_col, path_col),
        ) {
            (Some(m), Some(e)) => Some(spec_insert(m, e.0, e.1)),
            _ => None,
        }
    }
}

proof fn lemma_rows_none_extends(lines: Seq<Seq<u8>>, hash_col: int, path_col: int, n: int)
    requires
        0 <= n <= lines.len(),
        rows_of(lines.subrange(0, n), hash_col, path_col) is None,
    ensures
        rows_of(lines, hash_col, path_col) is None,
    decreases lines.len() - n,
{
    if n == lines.len() {
        assert(lines.subrange(0, n) =~= lines);
    } else {
        assert(lines.subrange(0, n + 1).drop_last() =~= lines.subrange(0, n));
        lemma_rows_none_extends(lines, hash_col, path_col, n + 1);
    }
}

/// A map read from lines holds no key twice, and its keys and values are
/// fields.
pub proof fn lemma_rows_clean(lines: Seq<Seq<u8>>, hash_col: int, path_col: int)
    requires
        0 <= hash_col,
        0 <= path_col,
        rows_of(lines, hash_col, path_col) is Some,
    ensures
        distinct_keys(rows_of(lines, hash_col, path_col)->Some_0),
        clean(rows_of(lines, hash_col, path_col)->Some_0),
    decreases lines.len(),
{
    if lines.len() > 0 {
        lemma_rows_clean(lines.drop_last(), hash_col, path_col);
        let m = rows_of(lines.drop_last(), hash_col, path_col)->Some_0;
        let e = row_entry(lines.last(), hash_col, path_col)->Some_0;
        crate::text_laws::lemma_tokens_are_tokens(lines.last(), 0);
        lemma_insert_lookup(m, e.0, e.1, e.0);
        crate::bytemap::lemma_position(m, e.0);
        let n = spec_insert(m, e.0, e.1);
        assert forall|i: int| 0 <= i < n.len() implies is_token((#[trigger] n[i]).0) && is_token(
            n[i].1,
        ) by {
            if i < m.len() && i != crate::bytemap::position(m, e.0) {
                assert(n[i] == m[i]);
            }
        }
    }
}

/// Every key and every value is a field: it has a byte and no white space.
pub open spec fn clean(m: Pairs) -> bool {
    forall|i: int| 0 <= i < m.len() ==> is_token((#[trigger] m[i]).0) && is_token(m[i].1)
}

/// The view of an optional map.
pub open spec fn map_view(m: Option<ByteMap>) -> Option<Pairs> {
    match m {
        Some(m) => Some(m@),
        None => None,
    }
}

/// Reads a text of lines that each hold a hash at field `hash_col` and a path
/// at field `path_col`.
pub fn parse_rows(text: &[u8], hash_col: usize, path_col: usize) -> (r: Option<ByteMap>)
    ensures
        map_view(r) == rows_of(spec_lines(text@), hash_col as int, path_col as int),
        r matches Some(m) ==> m.wf(),
{
    let lines = split_lines(text);
    let mut m = ByteMap::new();
    let mut i: usize = 0;
    proof {
        assert(views(lines@).subrange(0, 0) =~= Seq::<Seq<u8>>::empty());
    }
    while i < lines.len()
        invariant
            i <= lines@.len(),
            views(lines@) == spec_lines(text@),
            m.wf(),
            rows_of(views(lines@).subrange(0, i as int), hash_col as int, path_col as int)
                == Some(m@),
        decreases lines@.len() - i,
    {
        let t = split_tokens(lines[i].as_slice());
        proof {
            assert(views(lines@).subrange(0, i + 1).drop_last() =~= views(lines@).subrange(
                0,
                i as int,
            ));
            assert(views(lines@).subrange(0, i + 1).last() == lines@[i as int]@);
        }
        if hash_col < t.len() && path_col < t.len() {
            let path = copy_range(t[path_col].as_slice(), 0, t[path_col].len());
            let hash = copy_range(t[hash_col].as_slice(), 0, t[hash_col].len());
            proof {
                assert(path@ =~= views(t@)[path_col as int]);
                assert(hash@ =~= views(t@)[hash_col as int]);
            }
            m.insert(path, hash);
        } else {
            proof {
                lemma_rows_none_extends(
                    views(lines@),
                    hash_col as int,
                    path_col as int,
                    i + 1,
                );
            }
            return None;
        }
        i += 1;
    }
    proof {
        assert(views(lines@).subrange(0, i as int) =~= views(lines@));
    }
    Some(m)
}

/// The line that the index holds for `path` at `hash`.
pub open spec fn index_line(path: Seq<u8>, hash: Seq<u8>) -> Seq<u8> {
    hash + seq![32u8] + path
}

/// The lines of the index file for `m`, in the order of `m`.
pub open spec fn index_lines(m: Pairs) -> Seq<Seq<u8>> {
    Seq::new(m.len(), |i: int| index_line(m[i].0, m[i].1))
}

/// The text of the index file for `m`.
pub open spec fn index_text(m: Pairs) -> Seq<u8> {
    spec_join(index_lines(m), seq![10u8])
}

/// What the index file `text` stands for; `None` where a line has fewer than
/// two fields.
pub open spec fn index_of(text: Seq<u8>) -> Option<Pairs> {
    rows_of(spec_lines(text), 0, 1)
}

/// What reading the index of a repository gives.
pub open spec fn spec_read_index(index: Option<Seq<u8>>) -> Result<Pairs, FitError> {
    match index {
        None => Err(FitError::NotFound),
        Some(text) => match index_of(text) {
            None => Err(FitError::InvalidData),
            Some(m) => Ok(m),
        },
    }
}

/// The view of a map or an error.
pub open spec fn result_view(r: Result<ByteMap, FitError>) -> Result<Pairs, FitError> {
    match r {
        Ok(m) => Ok(m@),
        Err(e) => Err(e),
    }
}

/// Reads the index of `repo`. Fails with `NotFound` where the index file is
/// absent and with `InvalidData` where a line has fewer than two fields.
pub fn read_index(repo: &Repository) -> (r: Result<ByteMap, FitError>)
    ensures
        result_view(r) == spec_read_index(repo@.index),
        r matches Ok(m) ==> m.wf(),
{
    match &repo.index {
        None => Err(FitError::NotFound),
        Some(text) => match parse_rows(text.as_slice(), 0, 1) {
            None => Err(FitError::InvalidData),
            Some(m) => Ok(m),
        },
    }
}

/// The text of the index file for `index`.
pub fn render_index(index: &ByteMap) -> (r: Vec<u8>)
    ensures
        r@ == index_text(index@),
{
    let mut lines: Vec<Vec<u8>> = Vec::new();
    let mut i: usize = 0;
    while i < index.len()
        invariant
            i <= index@.len(),
            lines@.len() == i,
            forall|j: int| 0 <= j < i ==> (#[trigger] lines@[j])@ == index_lines(index@)[j],
        decreases index@.len() - i,
    {
        let mut line = copy_range(index.value_at(i).as_slice(), 0, index.value_at(i).len());
        line.push(32u8);
        append(&mut line, index.key_at(i).as_slice());
        proof {
            assert(line@ =~= index_line(index@[i as int].0, index@[i as int].1));
        }
        lines.push(line);
        i += 1;
    }
    let sep: Vec<u8> = vec![10u8];
    proof {
        assert(views(lines@) =~= index_lines(index@));
        assert(sep@ =~= seq![10u8]);
    }
    join(&lines, sep.as_slice())
}

/// Writes `index` as the index file of `repo`.
pub fn write_index(repo: &mut Repository, index: &ByteMap)
    ensures
        final(repo)@ == (crate::repo::RepoView {
            index: Some(index_text(index@)),
            ..old(repo)@
        }),
        old(repo).wf() ==> final(repo).wf(),
{
    repo.index = Some(render_index(index));
}

} // verus!
