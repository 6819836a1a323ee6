//! Staging: `add` and `rm`.

use vstd::prelude::*;
use crate::bytemap::{has_key, lookup, spec_insert, spec_remove, ByteMap, Pairs};
use crate::bytes::{bytes_eq, copy_range, starts_with};
use crate::error::FitError;
use crate::index::{index_text, read_index, render_index, spec_read_index, write_index};
use crate::object::{deflates, spec_hash, spec_put, write_object, ObjectKind};
use crate::repo::{RepoView, Repository};
use crate::staging::{spec_add, spec_delete, spec_modify, StagingArea, StagingView};
use crate::staging_file::{read_staging_area, staging_file, staging_of, write_staging_area};
use crate::text::views;

verus! {

/// What `add` works on: the object store, the staging delta and the index.
pub struct AddState {
    pub objects: Pairs,
    pub staging: StagingView,
    pub index: Pairs,
}

/// The state once the file `path` with `content` is added.
///
/// The blob is written, and the index takes its hash. The staging delta
/// records the path as new where the index did not hold it, as changed where
/// the index held it at another hash, and is left alone otherwise.
pub open spec fn spec_add_file(s: AddState, path: Seq<u8>, content: Seq<u8>) -> AddState {
    let h = spec_hash(ObjectKind::Blob, content);
    AddState {
        objects: spec_put(s.objects, ObjectKind::Blob, content),
        staging: match lookup(s.index, path) {
            Some(old) => if old != h {
                spec_modify(s.staging, path, h)
            } else {
                s.staging
            },
            None => spec_add(s.staging, path, h),
        },
        index: spec_insert(s.index, path, h),
    }
}

/// Adds the file `path` with `content`.
///
/// Fails, with `Io` and changing nothing, where the compression of the blob
/// fails.
pub fn add_file(
    objects: &mut ByteMap,
    path: &[u8],
    content: &[u8],
    staging: &mut StagingArea,
    index: &mut ByteMap,
) -> (r: Result<(), FitError>)
    ensures
        match r {
            Ok(_) => deflates(ObjectKind::Blob, content@) && (AddState {
                objects: final(objects)@,
                staging: final(staging)@,
                index: final(index)@,
            }) == spec_add_file(
                AddState { objects: old(objects)@, staging: old(staging)@, index: old(index)@ },
                path@,
                content@,
            ),
            Err(e) => e == FitError::Io && !deflates(ObjectKind::Blob, content@) && final(objects)@ == old(objects)@ && final(staging)@ == old(staging)@ && final(index)@ == old(index)@,
        },
        old(objects).wf() ==> final(objects).wf(),
        old(staging).wf() ==> final(staging).wf(),
        old(index).wf() ==> final(index).wf(),
{
    let hash = match write_object(objects, content, ObjectKind::Blob) {
        Err(e) => { return Err(e); },
        Ok(h) => h,
    };
    let key = copy_range(path, 0, path.len());
    let key2 = copy_range(path, 0, path.len());
    let hash2 = copy_range(hash.as_slice(), 0, hash.len());
    proof {
        assert(key@ =~= path@);
        assert(key2@ =~= path@);
        assert(hash2@ =~= hash@);
    }
    match index.get(path) {
        Some(old_hash) => {
            if !bytes_eq(old_hash.as_slice(), hash.as_slice()) {
                staging.modify(key, hash2);
            }
        },
        None => {
            staging.add(key, hash2);
        },
    }
    index.insert(key2, hash);
    Ok(())
}

/// `path` names a file in the directory `dir`, at any depth. The directory
/// `.` holds every file.
pub open spec fn is_under(dir: Seq<u8>, path: Seq<u8>) -> bool {
    if dir == seq!['.' as u8] {
        true
    } else if dir.len() > 0 && dir.last() == '/' as u8 {
        dir.is_prefix_of(path) && path.len() > dir.len()
    } else {
        (dir + seq!['/' as u8]).is_prefix_of(path) && path.len() > dir.len() + 1
    }
}

fn under(dir: &[u8], path: &[u8]) -> (r: bool)
    ensures
        r == is_under(dir@, path@),
{
    if dir.len() == 1 && dir[0] == '.' as u8 {
        proof {
            assert(dir@ =~= seq!['.' as u8]);
        }
        return true;
    }
    proof {
        if dir@.len() == 1 {
            assert(seq!['.' as u8][0] == '.' as u8);
        } else {
            assert(seq!['.' as u8].len() == 1);
        }
        assert(dir@ != seq!['.' as u8]);
    }
    if dir.len() > 0 && dir[dir.len() - 1] == '/' as u8 {
        proof {
            assert(dir@.last() == dir@[dir@.len() - 1]);
        }
        starts_with(path, dir) && path.len() > dir.len()
    } else {
        let ghost d = dir@ + seq!['/' as u8];
        proof {
            if dir@.len() > 0 {
                assert(dir@.last() == dir@[dir@.len() - 1]);
            }
            assert(d.len() == dir@.len() + 1);
        }
        if path.len() <= dir.len() || path.len() - dir.len() < 2 {
            return false;
        }
        let r = starts_with(path, dir) && path[dir.len()] == '/' as u8;
        proof {
            if r {
                assert(dir@ =~= path@.subrange(0, dir@.len() as int));
                assert forall|k: int| 0 <= k < d.len() implies d[k] == path@[k] by {
                    if k < dir@.len() {
                        assert(path@.subrange(0, dir@.len() as int)[k] == path@[k]);
                    }
                }
                assert(d =~= path@.subrange(0, d.len() as int));
            } else if d.is_prefix_of(path@) {
                let pre = path@.subrange(0, d.len() as int);
                assert(d =~= pre);
                assert(pre[dir@.len() as int] == path@[dir@.len() as int]);
                assert(d[dir@.len() as int] == '/' as u8);
                assert forall|k: int| 0 <= k < dir@.len() implies dir@[k] == path@[k] by {
                    assert(d[k] == dir@[k]);
                    assert(pre[k] == path@[k]);
                }
                assert(dir@ =~= path@.subrange(0, dir@.len() as int));
            }
        }
        r
    }
}

/// The state once the files under `dir` among the first `n` files of the
/// working directory are added, in order.
pub open spec fn spec_add_dir(s: AddState, worktree: Pairs, dir: Seq<u8>, n: int) -> AddState
    decreases n,
{
    if n <= 0 {
        s
    } else {
        let p = spec_add_dir(s, worktree, dir, n - 1);
        if is_under(dir, worktree[n - 1].0) {
            spec_add_file(p, worktree[n - 1].0, worktree[n - 1].1)
        } else {
            p
        }
    }
}

/// The paths under `dir` among the first `n` files of the working directory.
pub open spec fn paths_under(worktree: Pairs, dir: Seq<u8>, n: int) -> Seq<Seq<u8>>
    decreases n,
{
    if n <= 0 {
        Seq::empty()
    } else if is_under(dir, worktree[n - 1].0) {
        paths_under(worktree, dir, n - 1).push(worktree[n - 1].0)
    } else {
        paths_under(worktree, dir, n - 1)
    }
}

/// The file at position `k` of the working directory lies under `dir`, and
/// the compression of its blob fails.
pub open spec fn stopped_at(worktree: Pairs, dir: Seq<u8>, k: int) -> bool {
    &&& 0 <= k < worktree.len()
    &&& is_under(dir, worktree[k].0)
    &&& !deflates(ObjectKind::Blob, worktree[k].1)
}

/// Adds every file of the working directory that lies under `dir` and
/// returns their paths.
///
/// Fails, with `Io`, at the first file whose blob fails to compress; the
/// store then holds the blobs written before it.
pub fn add_directory(
    objects: &mut ByteMap,
    worktree: &ByteMap,
    dir: &[u8],
    staging: &mut StagingArea,
    index: &mut ByteMap,
) -> (r: Result<Vec<Vec<u8>>, FitError>)
    ensures
        match r {
            Ok(paths) => {
                &&& (AddState {
                    objects: final(objects)@,
                    staging: final(staging)@,
                    index: final(index)@,
                }) == spec_add_dir(
                    AddState {
                        objects: old(objects)@,
                        staging: old(staging)@,
                        index: old(index)@,
                    },
                    worktree@,
                    dir@,
                    worktree@.len() as int,
                )
                &&& views(paths@) == paths_under(worktree@, dir@, worktree@.len() as int)
            },
            Err(e) => e == FitError::Io && exists|k: int|
                stopped_at(worktree@, dir@, k) && final(objects)@ == (#[trigger] spec_add_dir(
                    AddState {
                        objects: old(objects)@,
                        staging: old(staging)@,
                        index: old(index)@,
                    },
                    worktree@,
                    dir@,
                    k,
                )).objects,
        },
        old(objects).wf() ==> final(objects).wf(),
        old(staging).wf() ==> final(staging).wf(),
        old(index).wf() ==> final(index).wf(),
{
    let ghost start = AddState { objects: objects@, staging: staging@, index: index@ };
    let mut paths: Vec<Vec<u8>> = Vec::new();
    let mut i: usize = 0;
    proof {
        assert(views(paths@) =~= paths_under(worktree@, dir@, 0));
    }
    while i < worktree.len()
        invariant
            i <= worktree@.len(),
            start == (AddState {
                objects: old(objects)@,
                staging: old(staging)@,
                index: old(index)@,
            }),
            (AddState { objects: objects@, staging: staging@, index: index@ }) == spec_add_dir(
                start,
                worktree@,
                dir@,
                i as int,
            ),
            views(paths@) == paths_under(worktree@, dir@, i as int),
            old(objects).wf() ==> objects.wf(),
            old(staging).wf() ==> staging.wf(),
            old(index).wf() ==> index.wf(),
        decreases worktree@.len() - i,
    {
        if under(dir, worktree.key_at(i).as_slice()) {
            match add_file(
                objects,
                worktree.key_at(i).as_slice(),
                worktree.value_at(i).as_slice(),
                staging,
                index,
            ) {
                Err(e) => {
                    proof {
                        assert(stopped_at(worktree@, dir@, i as int));
                        assert(objects@ == spec_add_dir(start, worktree@, dir@, i as int).objects);
                    }
                    return Err(e);
                },
                Ok(_) => {},
            }
            let p = copy_range(worktree.key_at(i).as_slice(), 0, worktree.key_at(i).len());
            proof {
                assert(p@ =~= worktree@[i as int].0);
                assert(views(paths@.push(p)) =~= views(paths@).push(p@));
            }
            paths.push(p);
        }
        i += 1;
    }
    Ok(paths)
}

/// The state that `add` of `path` leaves: the file itself where the working
/// directory holds one under that path, else every file under it.
pub open spec fn spec_add_state(v: RepoView, index: Pairs, path: Seq<u8>, n: int) -> AddState {
    let s = AddState { objects: v.objects, staging: staging_of(v.staging), index: index };
    match lookup(v.worktree, path) {
        Some(content) => spec_add_file(s, path, content),
        None => spec_add_dir(s, v.worktree, path, n),
    }
}

/// The paths that `add` of `path` takes up; none where `path` names neither a
/// file nor a directory with files.
pub open spec fn spec_add_paths(v: RepoView, path: Seq<u8>) -> Seq<Seq<u8>> {
    if has_key(v.worktree, path) {
        seq![path]
    } else {
        paths_under(v.worktree, path, v.worktree.len() as int)
    }
}

/// The repository after `add` of `path`: blobs written, staging file and
/// index rewritten. `NotFound` or `InvalidData` where the index cannot be
/// read.
pub open spec fn spec_add_workflow(v: RepoView, path: Seq<u8>) -> Result<RepoView, FitError> {
    match spec_read_index(v.index) {
        Err(e) => Err(e),
        Ok(index) => {
            let s = spec_add_state(v, index, path, v.worktree.len() as int);
            Ok(
                RepoView {
                    objects: s.objects,
                    staging: staging_file(s.staging),
                    index: Some(index_text(s.index)),
                    ..v
                },
            )
        },
    }
}

/// Stages the file or the directory `path` and returns the paths taken up.
///
/// Where the index cannot be read nothing changes. Where the compression of
/// a blob fails the result is `Io`, and only the object store has changed:
/// it holds the blobs of the files under `path` that were written before
/// the failure. Otherwise the command succeeds.
pub fn add_workflow(repo: &mut Repository, path: &[u8]) -> (r: Result<Vec<Vec<u8>>, FitError>)
    ensures
        match spec_add_workflow(old(repo)@, path@) {
            Err(e) => r == Err::<Vec<Vec<u8>>, FitError>(e) && final(repo)@ == old(repo)@,
            Ok(v) => match r {
                Ok(paths) => final(repo)@ == v && views(paths@) == spec_add_paths(
                    old(repo)@,
                    path@,
                ),
                Err(e) => {
                    &&& e == FitError::Io
                    &&& final(repo)@ == (RepoView { objects: final(repo)@.objects, ..old(repo)@ })
                    &&& match lookup(old(repo)@.worktree, path@) {
                        Some(content) => !deflates(ObjectKind::Blob, content) && final(repo)@.objects == old(repo)@.objects,
                        None => exists|k: int|
                            stopped_at(old(repo)@.worktree, path@, k) && final(repo)@.objects == (
                            #[trigger] spec_add_dir(
                                AddState {
                                    objects: old(repo)@.objects,
                                    staging: staging_of(old(repo)@.staging),
                                    index: spec_read_index(old(repo)@.index)->Ok_0,
                                },
                                old(repo)@.worktree,
                                path@,
                                k,
                            )).objects,
                    }
                },
            },
        },
        old(repo).wf() ==> final(repo).wf(),
{
    let mut staging = read_staging_area(repo);
    let mut index = match read_index(repo) {
        Err(e) => { return Err(e); },
        Ok(m) => m,
    };
    let ghost index0 = index@;
    let p = repo.worktree.find(path);
    let paths = if p < repo.worktree.len() {
        proof {
            crate::bytemap::lemma_position(repo.worktree@, path@);
        }
        match add_file(
            &mut repo.objects,
            path,
            repo.worktree.value_at(p).as_slice(),
            &mut staging,
            &mut index,
        ) {
            Err(e) => {
                return Err(e);
            },
            Ok(_) => {},
        }
        let one = copy_range(path, 0, path.len());
        let paths: Vec<Vec<u8>> = vec![one];
        proof {
            assert(one@ =~= path@);
            assert(views(paths@) =~= seq![path@]);
        }
        paths
    } else {
        match add_directory(&mut repo.objects, &repo.worktree, path, &mut staging, &mut index) {
            Err(e) => {
                proof {
                    let s = AddState {
                        objects: old(repo)@.objects,
                        staging: staging_of(old(repo)@.staging),
                        index: index0,
                    };
                    let k = choose|k: int|
                        stopped_at(old(repo)@.worktree, path@, k) && repo@.objects == (
                        #[trigger] spec_add_dir(s, old(repo)@.worktree, path@, k)).objects;
                    assert(repo@.objects == spec_add_dir(s, old(repo)@.worktree, path@, k).objects);
                }
                return Err(e);
            },
            Ok(paths) => paths,
        }
    };
    write_staging_area(repo, &staging);
    write_index(repo, &index);
    Ok(paths)
}

/// How `rm` ended.
#[derive(Clone, Copy, Debug, PartialEq, Eq, Structural)]
pub enum RmOutcome {
    /// The path left the index and is recorded as removed.
    Removed,
    /// The index does not hold the path.
    Untracked,
    /// The working directory holds no file under the path.
    Missing,
}

/// What `rm` of `path` does: nothing where the working directory holds no
/// such file or the index does not hold the path; else the path leaves the
/// index and the staging delta records it as removed. `NotFound` or
/// `InvalidData` where the file is there and the index cannot be read.
pub open spec fn spec_rm_workflow(v: RepoView, path: Seq<u8>) -> Result<
    (RepoView, RmOutcome),
    FitError,
> {
    if !has_key(v.worktree, path) {
        Ok((v, RmOutcome::Missing))
    } else {
        match spec_read_index(v.index) {
            Err(e) => Err(e),
            Ok(index) => if !has_key(index, path) {
                Ok((v, RmOutcome::Untracked))
            } else {
                Ok(
                    (
                        RepoView {
                            staging: staging_file(spec_delete(staging_of(v.staging), path)),
                            index: Some(index_text(spec_remove(index, path))),
                            ..v
                        },
                        RmOutcome::Removed,
                    ),
                )
            },
        }
    }
}

/// Takes `path` out of the index and records it as removed. On failure
/// nothing changes.
pub fn rm_workflow(repo: &mut Repository, path: &[u8]) -> (r: Result<RmOutcome, FitError>)
    ensures
        match spec_rm_workflow(old(repo)@, path@) {
            Ok((v, outcome)) => r == Ok::<RmOutcome, FitError>(outcome) && final(repo)@ == v,
            Err(e) => r == Err::<RmOutcome, FitError>(e) && final(repo)@ == old(repo)@,
        },
        old(repo).wf() ==> final(repo).wf(),
{
    if !repo.worktree.contains_key(path) {
        return Ok(RmOutcome::Missing);
    }
    let mut staging = read_staging_area(repo);
    let mut index = match read_index(repo) {
        Err(e) => { return Err(e); },
        Ok(m) => m,
    };
    if !index.contains_key(path) {
        return Ok(RmOutcome::Untracked);
    }
    index.remove(path);
    let key = copy_range(path, 0, path.len());
    proof {
        assert(key@ =~= path@);
    }
    staging.delete(key);
    write_staging_area(repo, &staging);
    write_index(repo, &index);
    Ok(RmOutcome::Removed)
}

} // verus!
