//! The stored text of the staging delta.
//!
//! The staging file holds one line for each pending change: `A <hash> <path>`
//! for a new path, `M <hash> <path>` for a changed one, `D <path>` for a
//! removed one. The file is absent when nothing is pending.

use vstd::prelude::*;
use crate::bytemap::{ByteMap, Pairs};
use crate::bytes::{append, bytes_eq, copy_range};
use crate::repo::{RepoView, Repository};
use crate::staging::{
    empty_staging, partitioned, spec_add, spec_delete, spec_modify, StagingArea, StagingView,
};
use crate::text::{spec_lines, spec_tokens, split_lines, split_tokens, views};

verus! {

/// The staging delta after the change that `line` records; a line in no
/// known form records nothing.
pub open spec fn apply_line(v: StagingView, line: Seq<u8>) -> StagingView {
    let t = spec_tokens(line);
    if t.len() == 3 && t[0] == seq!['A' as u8] {
        spec_add(v, t[2], t[1])
    } else if t.len() == 3 && t[0] == seq!['M' as u8] {
        spec_modify(v, t[2], t[1])
    } else if t.len() == 2 && t[0] == seq!['D' as u8] {
        spec_delete(v, t[1])
    } else {
        v
    }
}

/// The staging delta that a list of lines records, first line first.
pub open spec fn staging_of_lines(lines: Seq<Seq<u8>>) -> StagingView
    decreases lines.len(),
{
    if lines.len() == 0 {
        empty_staging()
    } else {
        apply_line(staging_of_lines(lines.drop_last()), lines.last())
    }
}

/// The staging delta that the staging file records; an absent file records
/// nothing.
pub open spec fn staging_of(file: Option<Seq<u8>>) -> StagingView {
    match file {
        None => empty_staging(),
        Some(text) => staging_of_lines(spec_lines(text)),
    }
}

fn is_word(t: &Vec<u8>, c: u8) -> (r: bool)
    ensures
        r == (t@ == seq![c]),
{
    let r = t.len() == 1 && t[0] == c;
    proof {
        if r {
            assert(t@ =~= seq![c]);
        } else if t@.len() == 1 {
            assert(seq![c][0] == c);
        }
    }
    r
}

fn copy_token(t: &Vec<Vec<u8>>, i: usize) -> (r: Vec<u8>)
    requires
        i < t@.len(),
    ensures
        r@ == views(t@)[i as int],
{
    copy_range(t[i].as_slice(), 0, t[i].len())
}

/// Reads the staging delta of `repo`.
pub fn read_staging_area(repo: &Repository) -> (r: StagingArea)
    ensures
        r@ == staging_of(repo@.staging),
        r.wf(),
{
    let mut area = StagingArea::new();
    match &repo.staging {
        None => area,
        Some(text) => {
            let lines = split_lines(text.as_slice());
            let mut i: usize = 0;
            proof {
                assert(views(lines@).subrange(0, 0) =~= Seq::<Seq<u8>>::empty());
            }
            while i < lines.len()
                invariant
                    i <= lines@.len(),
                    area.wf(),
                    area@ == staging_of_lines(views(lines@).subrange(0, i as int)),
                decreases lines@.len() - i,
            {
                let t = split_tokens(lines[i].as_slice());
                proof {
                    assert(views(lines@).subrange(0, i + 1).drop_last() =~= views(
                        lines@,
                    ).subrange(0, i as int));
                    assert(views(lines@).subrange(0, i + 1).last() == lines@[i as int]@);
                    assert(views(t@).len() == t@.len());
                    if t@.len() > 0 {
                        assert(views(t@)[0] == t@[0]@);
                    }
                }
                if t.len() == 3 && is_word(&t[0], 'A' as u8) {
                    area.add(copy_token(&t, 2), copy_token(&t, 1));
                } else if t.len() == 3 && is_word(&t[0], 'M' as u8) {
                    area.modify(copy_token(&t, 2), copy_token(&t, 1));
                } else if t.len() == 2 && is_word(&t[0], 'D' as u8) {
                    area.delete(copy_token(&t, 1));
                }
                i += 1;
            }
            proof {
                assert(views(lines@).subrange(0, i as int) =~= views(lines@));
            }
            area
        },
    }
}

/// The line that records `path` under `tag` with `hash`.
pub open spec fn staged_line(tag: u8, path: Seq<u8>, hash: Seq<u8>) -> Seq<u8> {
    seq![tag, 32u8] + hash + seq![32u8] + path + seq![10u8]
}

/// The lines that record the entries of `m` under `tag`.
pub open spec fn staged_rows(m: Pairs, tag: u8) -> Seq<u8>
    decreases m.len(),
{
    if m.len() == 0 {
        Seq::empty()
    } else {
        staged_rows(m.drop_last(), tag) + staged_line(tag, m.last().0, m.last().1)
    }
}

/// The line that records `path` as removed.
pub open spec fn deleted_line(path: Seq<u8>) -> Seq<u8> {
    seq!['D' as u8, 32u8] + path + seq![10u8]
}

/// The lines that record the keys of `m` as removed.
pub open spec fn deleted_rows(m: Pairs) -> Seq<u8>
    decreases m.len(),
{
    if m.len() == 0 {
        Seq::empty()
    } else {
        deleted_rows(m.drop_last()) + deleted_line(m.last().0)
    }
}

/// The text of the staging file for `v`: new paths, changed paths, removed
/// paths.
pub open spec fn staging_text(v: StagingView) -> Seq<u8> {
    staged_rows(v.added, 'A' as u8) + staged_rows(v.modified, 'M' as u8) + deleted_rows(
        v.deleted,
    )
}

/// The staging file for `v`: absent when nothing is pending.
pub open spec fn staging_file(v: StagingView) -> Option<Seq<u8>> {
    if v.added.len() == 0 && v.modified.len() == 0 && v.deleted.len() == 0 {
        None
    } else {
        Some(staging_text(v))
    }
}

fn render_rows(out: &mut Vec<u8>, m: &ByteMap, tag: u8)
    ensures
        final(out)@ == old(out)@ + staged_rows(m@, tag),
{
    let mut i: usize = 0;
    proof {
        assert(m@.subrange(0, 0) =~= Pairs::empty());
        assert(out@ =~= old(out)@ + staged_rows(m@.subrange(0, 0), tag));
    }
    while i < m.len()
        invariant
            i <= m@.len(),
            out@ == old(out)@ + staged_rows(m@.subrange(0, i as int), tag),
        decreases m@.len() - i,
    {
        let ghost before = out@;
        out.push(tag);
        out.push(32u8);
        append(out, m.value_at(i).as_slice());
        out.push(32u8);
        append(out, m.key_at(i).as_slice());
        out.push(10u8);
        proof {
            let p = m@.subrange(0, i + 1);
            assert(p.drop_last() =~= m@.subrange(0, i as int));
            assert(p.last() == m@[i as int]);
            assert(out@ =~= before + staged_line(tag, m@[i as int].0, m@[i as int].1));
            assert(out@ =~= old(out)@ + staged_rows(p, tag));
        }
        i += 1;
    }
    proof {
        assert(m@.subrange(0, i as int) =~= m@);
    }
}

fn render_deleted(out: &mut Vec<u8>, m: &ByteMap)
    ensures
        final(out)@ == old(out)@ + deleted_rows(m@),
{
    let mut i: usize = 0;
    proof {
        assert(m@.subrange(0, 0) =~= Pairs::empty());
        assert(out@ =~= old(out)@ + deleted_rows(m@.subrange(0, 0)));
    }
    while i < m.len()
        invariant
            i <= m@.len(),
            out@ == old(out)@ + deleted_rows(m@.subrange(0, i as int)),
        decreases m@.len() - i,
    {
        let ghost before = out@;
        out.push('D' as u8);
        out.push(32u8);
        append(out, m.key_at(i).as_slice());
        out.push(10u8);
        proof {
            let p = m@.subrange(0, i + 1);
            assert(p.drop_last() =~= m@.subrange(0, i as int));
            assert(p.last() == m@[i as int]);
            assert(out@ =~= before + deleted_line(m@[i as int].0));
            assert(out@ =~= old(out)@ + deleted_rows(p));
        }
        i += 1;
    }
    proof {
        assert(m@.subrange(0, i as int) =~= m@);
    }
}

/// The text of the staging file for `area`.
pub fn render_staging(area: &StagingArea) -> (r: Vec<u8>)
    ensures
        r@ == staging_text(area@),
{
    let mut out: Vec<u8> = Vec::new();
    render_rows(&mut out, area.added(), 'A' as u8);
    render_rows(&mut out, area.modified(), 'M' as u8);
    render_deleted(&mut out, area.deleted());
    proof {
        assert(out@ =~= staging_text(area@));
    }
    out
}

/// Writes `area` as the staging file of `repo`, or removes the file where
/// nothing is pending.
pub fn write_staging_area(repo: &mut Repository, area: &StagingArea)
    ensures
        final(repo)@ == (RepoView { staging: staging_file(area@), ..old(repo)@ }),
        old(repo).wf() ==> final(repo).wf(),
{
    if area.is_empty() {
        repo.staging = None;
    } else {
        repo.staging = Some(render_staging(area));
    }
}

} // verus!
