//! The status report: what is staged, what has changed since, and what is
//! not tracked.

use vstd::prelude::*;
use crate::bytemap::{has_key, lookup, ByteMap, Pairs};
use crate::bytes::{bytes_eq, copy_range, find_byte, find_from};
use crate::error::FitError;
use crate::index::{read_index, spec_read_index};
use crate::object::{deflates, spec_hash, spec_put, write_object, ObjectKind};
use crate::refs::{get_current_branch, spec_current_branch};
use crate::repo::{RepoView, Repository};
use crate::staging::{staged, StagingArea, StagingView};
use crate::staging_file::{read_staging_area, staging_of};
use crate::text::views;

verus! {

/// What happened to a path.
#[derive(Clone, Copy, Debug, PartialEq, Eq, Structural)]
pub enum ChangeKind {
    New,
    Modified,
    Deleted,
}

/// One line of a status report.
pub struct StatusLine {
    pub kind: ChangeKind,
    pub path: Vec<u8>,
}

impl StatusLine {
    /// Kind and path.
    pub open spec fn view(&self) -> (ChangeKind, Seq<u8>) {
        (self.kind, self.path@)
    }
}

/// The views of a list of status lines.
pub open spec fn lines_view(l: Seq<StatusLine>) -> Seq<(ChangeKind, Seq<u8>)> {
    Seq::new(l.len(), |i: int| l[i]@)
}

/// The status of a repository.
pub struct StatusReport {
    /// The branch that is checked out.
    pub branch: Vec<u8>,
    /// The changes to be committed.
    pub staged: Vec<StatusLine>,
    /// The changes not staged for commit.
    pub unstaged: Vec<StatusLine>,
    /// The files that are not tracked.
    pub untracked: Vec<Vec<u8>>,
}

/// The mathematical content of a [`StatusReport`].
pub struct StatusView {
    pub branch: Seq<u8>,
    pub staged: Seq<(ChangeKind, Seq<u8>)>,
    pub unstaged: Seq<(ChangeKind, Seq<u8>)>,
    pub untracked: Seq<Seq<u8>>,
}

impl StatusReport {
    /// The branch and the three sections.
    pub open spec fn view(&self) -> StatusView {
        StatusView {
            branch: self.branch@,
            staged: lines_view(self.staged@),
            unstaged: lines_view(self.unstaged@),
            untracked: views(self.untracked@),
        }
    }
}

/// The keys of `m`, each as a change of `kind`.
pub open spec fn tagged(m: Pairs, kind: ChangeKind) -> Seq<(ChangeKind, Seq<u8>)> {
    Seq::new(m.len(), |i: int| (kind, m[i].0))
}

/// The changes to be committed: new paths, changed paths, removed paths.
pub open spec fn staged_changes(s: StagingView) -> Seq<(ChangeKind, Seq<u8>)> {
    tagged(s.added, ChangeKind::New) + tagged(s.modified, ChangeKind::Modified) + tagged(
        s.deleted,
        ChangeKind::Deleted,
    )
}

/// The changes not staged, among the first `n` paths of the index: a path
/// that is not staged is deleted where the working directory holds no such
/// file, and modified where the hash of the file as a blob is not the hash in
/// the index.
pub open spec fn unstaged_changes(index: Pairs, s: StagingView, worktree: Pairs, n: int) -> Seq<
    (ChangeKind, Seq<u8>),
>
    decreases n,
{
    if n <= 0 {
        Seq::empty()
    } else {
        let rest = unstaged_changes(index, s, worktree, n - 1);
        let path = index[n - 1].0;
        if staged(s, path) {
            rest
        } else {
            match lookup(worktree, path) {
                None => rest.push((ChangeKind::Deleted, path)),
                Some(content) => if spec_hash(ObjectKind::Blob, content) != index[n - 1].1 {
                    rest.push((ChangeKind::Modified, path))
                } else {
                    rest
                },
            }
        }
    }
}

/// The object store once the files of the first `n` paths of the index that
/// are not staged are written as blobs.
pub open spec fn rehashed(objects: Pairs, index: Pairs, s: StagingView, worktree: Pairs, n: int)
    -> Pairs
    decreases n,
{
    if n <= 0 {
        objects
    } else {
        let rest = rehashed(objects, index, s, worktree, n - 1);
        let path = index[n - 1].0;
        if staged(s, path) {
            rest
        } else {
            match lookup(worktree, path) {
                None => rest,
                Some(content) => spec_put(rest, ObjectKind::Blob, content),
            }
        }
    }
}

/// `path` names a file directly in the working directory.
pub open spec fn is_top_level(path: Seq<u8>) -> bool {
    find_from(path, '/' as u8, 0) >= path.len()
}

/// The files among the first `n` of the working directory that stand
/// directly in it and that the index does not hold.
pub open spec fn untracked_files(worktree: Pairs, index: Pairs, n: int) -> Seq<Seq<u8>>
    decreases n,
{
    if n <= 0 {
        Seq::empty()
    } else {
        let rest = untracked_files(worktree, index, n - 1);
        if is_top_level(worktree[n - 1].0) && !has_key(index, worktree[n - 1].0) {
            rest.push(worktree[n - 1].0)
        } else {
            rest
        }
    }
}

fn tag_all(out: &mut Vec<StatusLine>, m: &ByteMap, kind: ChangeKind)
    ensures
        lines_view(final(out)@) == lines_view(old(out)@) + tagged(m@, kind),
{
    let mut i: usize = 0;
    proof {
        assert(lines_view(out@) =~= lines_view(old(out)@) + tagged(m@, kind).subrange(0, 0));
    }
    while i < m.len()
        invariant
            i <= m@.len(),
            lines_view(out@) == lines_view(old(out)@) + tagged(m@, kind).subrange(0, i as int),
        decreases m@.len() - i,
    {
        let ghost before = lines_view(out@);
        let path = copy_range(m.key_at(i).as_slice(), 0, m.key_at(i).len());
        let line = StatusLine { kind, path };
        proof {
            assert(path@ =~= m@[i as int].0);
            assert(lines_view(out@.push(line)) =~= before.push(line@));
            assert(before.push(line@) =~= lines_view(old(out)@) + tagged(m@, kind).subrange(
                0,
                i + 1,
            ));
        }
        out.push(line);
        i += 1;
    }
    proof {
        assert(tagged(m@, kind).subrange(0, m@.len() as int) =~= tagged(m@, kind));
    }
}

/// Lists the changes to be committed.
pub fn list_staged(staging: &StagingArea) -> (r: Vec<StatusLine>)
    ensures
        lines_view(r@) == staged_changes(staging@),
{
    let mut out: Vec<StatusLine> = Vec::new();
    proof {
        assert(lines_view(out@) =~= Seq::<(ChangeKind, Seq<u8>)>::empty());
    }
    tag_all(&mut out, staging.added(), ChangeKind::New);
    tag_all(&mut out, staging.modified(), ChangeKind::Modified);
    tag_all(&mut out, staging.deleted(), ChangeKind::Deleted);
    proof {
        assert(lines_view(out@) =~= staged_changes(staging@));
    }
    out
}

/// Lists the files that are not tracked.
pub fn list_untracked(worktree: &ByteMap, index: &ByteMap) -> (r: Vec<Vec<u8>>)
    ensures
        views(r@) == untracked_files(worktree@, index@, worktree@.len() as int),
{
    let mut out: Vec<Vec<u8>> = Vec::new();
    let mut i: usize = 0;
    proof {
        assert(views(out@) =~= Seq::<Seq<u8>>::empty());
    }
    while i < worktree.len()
        invariant
            i <= worktree@.len(),
            views(out@) == untracked_files(worktree@, index@, i as int),
        decreases worktree@.len() - i,
    {
        let path = worktree.key_at(i);
        if find_byte(path.as_slice(), '/' as u8, 0) >= path.len() && !index.contains_key(
            path.as_slice(),
        ) {
            let p = copy_range(path.as_slice(), 0, path.len());
            proof {
                assert(p@ =~= worktree@[i as int].0);
                assert(views(out@.push(p)) =~= views(out@).push(p@));
            }
            out.push(p);
        }
        i += 1;
    }
    out
}

/// The path at position `k` of the index is not staged, the working
/// directory holds a file under it, and the compression of the blob of that
/// file fails.
pub open spec fn rehash_stopped_at(index: Pairs, s: StagingView, worktree: Pairs, k: int) -> bool {
    &&& 0 <= k < index.len()
    &&& !staged(s, index[k].0)
    &&& lookup(worktree, index[k].0) matches Some(content) && !deflates(
        ObjectKind::Blob,
        content,
    )
}

/// Lists the changes not staged and writes the files it looks at as blobs.
///
/// Fails, with `Io`, at the first file whose blob fails to compress; the
/// store then holds the blobs written before it.
pub fn list_unstaged(
    objects: &mut ByteMap,
    index: &ByteMap,
    staging: &StagingArea,
    worktree: &ByteMap,
) -> (r: Result<Vec<StatusLine>, FitError>)
    ensures
        match r {
            Ok(l) => {
                &&& lines_view(l@) == unstaged_changes(
                    index@,
                    staging@,
                    worktree@,
                    index@.len() as int,
                )
                &&& final(objects)@ == rehashed(
                    old(objects)@,
                    index@,
                    staging@,
                    worktree@,
                    index@.len() as int,
                )
            },
            Err(e) => e == FitError::Io && exists|k: int|
                rehash_stopped_at(index@, staging@, worktree@, k) && final(objects)@
                    == #[trigger] rehashed(old(objects)@, index@, staging@, worktree@, k),
        },
        old(objects).wf() ==> final(objects).wf(),
{
    let mut out: Vec<StatusLine> = Vec::new();
    let mut i: usize = 0;
    proof {
        assert(lines_view(out@) =~= Seq::<(ChangeKind, Seq<u8>)>::empty());
    }
    while i < index.len()
        invariant
            i <= index@.len(),
            lines_view(out@) == unstaged_changes(index@, staging@, worktree@, i as int),
            objects@ == rehashed(old(objects)@, index@, staging@, worktree@, i as int),
            old(objects).wf() ==> objects.wf(),
        decreases index@.len() - i,
    {
        let ghost before = lines_view(out@);
        let path = index.key_at(i);
        if !staging.is_staged(path.as_slice()) {
            match worktree.get(path.as_slice()) {
                None => {
                    let p = copy_range(path.as_slice(), 0, path.len());
                    let line = StatusLine { kind: ChangeKind::Deleted, path: p };
                    proof {
                        assert(p@ =~= index@[i as int].0);
                        assert(lines_view(out@.push(line)) =~= before.push(line@));
                    }
                    out.push(line);
                },
                Some(content) => {
                    let hash = match write_object(objects, content.as_slice(), ObjectKind::Blob) {
                        Err(e) => {
                            proof {
                                assert(rehash_stopped_at(index@, staging@, worktree@, i as int));
                                assert(objects@ == rehashed(
                                    old(objects)@,
                                    index@,
                                    staging@,
                                    worktree@,
                                    i as int,
                                ));
                            }
                            return Err(e);
                        },
                        Ok(h) => h,
                    };
                    if !bytes_eq(hash.as_slice(), index.value_at(i).as_slice()) {
                        let p = copy_range(path.as_slice(), 0, path.len());
                        let line = StatusLine { kind: ChangeKind::Modified, path: p };
                        proof {
                            assert(p@ =~= index@[i as int].0);
                            assert(lines_view(out@.push(line)) =~= before.push(line@));
                        }
                        out.push(line);
                    }
                },
            }
        }
        i += 1;
    }
    Ok(out)
}

/// The status of the repository: the branch, the staged changes, the
/// changes not staged, and the files not tracked. Fails where `HEAD` is
/// absent or the index cannot be read.
pub open spec fn spec_status(v: RepoView) -> Result<StatusView, FitError> {
    match spec_current_branch(v.head) {
        Err(e) => Err(e),
        Ok(branch) => match spec_read_index(v.index) {
            Err(e) => Err(e),
            Ok(index) => Ok(
                StatusView {
                    branch: branch,
                    staged: staged_changes(staging_of(v.staging)),
                    unstaged: unstaged_changes(
                        index,
                        staging_of(v.staging),
                        v.worktree,
                        index.len() as int,
                    ),
                    untracked: untracked_files(v.worktree, index, v.worktree.len() as int),
                },
            ),
        },
    }
}

/// The object store that `status` leaves after looking at the first `n`
/// paths of the index.
pub open spec fn status_objects(v: RepoView, n: int) -> Pairs {
    rehashed(v.objects, spec_read_index(v.index)->Ok_0, staging_of(v.staging), v.worktree, n)
}

/// Reports the status of the repository.
///
/// Nothing changes but the object store, which takes the blob of every
/// tracked file that is looked at. Where `HEAD` or the index cannot be read
/// nothing changes at all. Where the compression of a blob fails the result
/// is `Io`, and the store holds the blobs written before the failure.
pub fn status_workflow(repo: &mut Repository) -> (r: Result<StatusReport, FitError>)
    ensures
        final(repo)@ == (RepoView { objects: final(repo)@.objects, ..old(repo)@ }),
        match spec_status(old(repo)@) {
            Err(e) => r matches Err(f) && f == e && final(repo)@ == old(repo)@,
            Ok(v) => match r {
                Ok(report) => report@ == v && final(repo)@.objects == status_objects(
                    old(repo)@,
                    spec_read_index(old(repo)@.index)->Ok_0.len() as int,
                ),
                Err(e) => e == FitError::Io && exists|k: int|
                    rehash_stopped_at(
                        spec_read_index(old(repo)@.index)->Ok_0,
                        staging_of(old(repo)@.staging),
                        old(repo)@.worktree,
                        k,
                    ) && final(repo)@.objects == #[trigger] status_objects(old(repo)@, k),
            },
        },
        old(repo).wf() ==> final(repo).wf(),
{
    let branch = match get_current_branch(repo) {
        Err(e) => { return Err(e); },
        Ok(b) => b,
    };
    let staging = read_staging_area(repo);
    let index = match read_index(repo) {
        Err(e) => { return Err(e); },
        Ok(m) => m,
    };
    let staged = list_staged(&staging);
    let unstaged = match list_unstaged(&mut repo.objects, &index, &staging, &repo.worktree) {
        Err(e) => {
            proof {
                let k = choose|k: int|
                    rehash_stopped_at(index@, staging@, old(repo)@.worktree, k) && repo@.objects
                        == #[trigger] rehashed(
                        old(repo)@.objects,
                        index@,
                        staging@,
                        old(repo)@.worktree,
                        k,
                    );
                assert(repo@.objects == status_objects(old(repo)@, k));
            }
            return Err(e);
        },
        Ok(l) => l,
    };
    let untracked = list_untracked(&repo.worktree, &index);
    Ok(StatusReport { branch, staged, unstaged, untracked })
}

} // verus!
