//! The materializer: makes the working directory, the index and the
//! checked-out branch match a commit.

use vstd::prelude::*;
use crate::bytemap::{
    distinct_keys, has_key, lemma_insert_lookup, lemma_lookup_entry, lemma_position,
    lemma_remove_lookup, lookup, position, spec_insert, spec_remove, ByteMap, Pairs,
};
use crate::bytes::{bytes_eq, copy_range};
use crate::commit::{tree_of, tree_of_payload};
use crate::error::FitError;
use crate::index::{index_text, read_index, render_index, spec_read_index};
use crate::object::{commit_word, name_of, read_object, spec_get, ObjectKind};
use crate::refs::{get_current_branch, spec_current_branch};
use crate::repo::{RepoView, Repository};
use crate::text::views;
use crate::tree::{bytes_view, get_tree_files, read_payload, spec_payload, spec_tree_files};

verus! {

/// The payload of the commit under `hash`; `NotFound` where the store holds
/// no object under `hash` or one that is no commit.
pub open spec fn spec_commit_payload(objects: Pairs, hash: Seq<u8>) -> Result<Seq<u8>, FitError> {
    match spec_get(objects, hash) {
        Err(e) => Err(e),
        Ok(None) => Err(FitError::NotFound),
        Ok(Some(o)) => if o.0 == commit_word() {
            Ok(o.1)
        } else {
            Err(FitError::NotFound)
        },
    }
}

/// Reads the payload of the commit under `hash`.
pub fn read_commit(objects: &ByteMap, hash: &[u8]) -> (r: Result<Vec<u8>, FitError>)
    ensures
        bytes_view(r) == spec_commit_payload(objects@, hash@),
{
    match read_object(objects, hash) {
        Err(e) => Err(e),
        Ok(None) => Err(FitError::NotFound),
        Ok(Some(o)) => {
            let word = name_of(ObjectKind::Commit);
            if bytes_eq(o.0.as_slice(), word.as_slice()) {
                Ok(o.1)
            } else {
                Err(FitError::NotFound)
            }
        },
    }
}

/// The payloads of the blobs of the first `n` rows, in order; the failure of
/// the first row whose blob cannot be read.
pub open spec fn blobs_of(objects: Pairs, rows: Pairs, n: int) -> Result<Seq<Seq<u8>>, FitError>
    decreases n,
{
    if n <= 0 {
        Ok(Seq::empty())
    } else {
        match blobs_of(objects, rows, n - 1) {
            Err(e) => Err(e),
            Ok(bs) => match spec_payload(objects, rows[n - 1].1) {
                Err(e) => Err(e),
                Ok(b) => Ok(bs.push(b)),
            },
        }
    }
}

proof fn lemma_blobs_error_extends(objects: Pairs, rows: Pairs, n: int, m: int)
    requires
        0 <= n <= m,
        blobs_of(objects, rows, n) is Err,
    ensures
        blobs_of(objects, rows, m) == blobs_of(objects, rows, n),
    decreases m - n,
{
    if n < m {
        lemma_blobs_error_extends(objects, rows, n, m - 1);
    }
}

/// Blobs that were all read are as many as the rows, each the payload of
/// the blob of its row.
pub proof fn lemma_blobs_len(objects: Pairs, rows: Pairs, n: int)
    requires
        0 <= n,
        blobs_of(objects, rows, n) is Ok,
    ensures
        blobs_of(objects, rows, n)->Ok_0.len() == n,
        forall|i: int|
            0 <= i < n ==> spec_payload(objects, rows[i].1) == Ok::<Seq<u8>, FitError>(
                #[trigger] blobs_of(objects, rows, n)->Ok_0[i],
            ),
    decreases n,
{
    if n > 0 {
        lemma_blobs_len(objects, rows, n - 1);
    }
}

/// The view of a list of byte strings or an error.
pub open spec fn list_view(r: Result<Vec<Vec<u8>>, FitError>) -> Result<Seq<Seq<u8>>, FitError> {
    match r {
        Ok(l) => Ok(views(l@)),
        Err(e) => Err(e),
    }
}

/// Reads the blob of each row of `rows`.
pub fn read_blobs(objects: &ByteMap, rows: &ByteMap) -> (r: Result<Vec<Vec<u8>>, FitError>)
    ensures
        list_view(r) == blobs_of(objects@, rows@, rows@.len() as int),
{
    let mut blobs: Vec<Vec<u8>> = Vec::new();
    let mut i: usize = 0;
    proof {
        assert(views(blobs@) =~= Seq::<Seq<u8>>::empty());
    }
    while i < rows.len()
        invariant
            i <= rows@.len(),
            blobs_of(objects@, rows@, i as int) == Ok::<Seq<Seq<u8>>, FitError>(views(blobs@)),
        decreases rows@.len() - i,
    {
        match read_payload(objects, rows.value_at(i).as_slice()) {
            Err(e) => {
                proof {
                    lemma_blobs_error_extends(objects@, rows@, i + 1, rows@.len() as int);
                }
                return Err(e);
            },
            Ok(b) => {
                proof {
                    assert(views(blobs@.push(b)) =~= views(blobs@).push(b@));
                }
                blobs.push(b);
            },
        }
        i += 1;
    }
    Ok(blobs)
}

/// The working directory once the first `n` rows are written: each path with
/// the payload of its blob.
pub open spec fn written(worktree: Pairs, rows: Pairs, blobs: Seq<Seq<u8>>, n: int) -> Pairs
    decreases n,
{
    if n <= 0 {
        worktree
    } else {
        spec_insert(written(worktree, rows, blobs, n - 1), rows[n - 1].0, blobs[n - 1])
    }
}

/// The working directory once the first `n` paths of `current` are looked
/// at: a path that `rows` does not hold is removed.
pub open spec fn pruned(worktree: Pairs, current: Pairs, rows: Pairs, n: int) -> Pairs
    decreases n,
{
    if n <= 0 {
        worktree
    } else {
        let w = pruned(worktree, current, rows, n - 1);
        if has_key(rows, current[n - 1].0) {
            w
        } else {
            spec_remove(w, current[n - 1].0)
        }
    }
}

/// The working directory that matches `rows`: every row written, every path
/// of the index `current` that `rows` does not hold removed.
pub open spec fn materialized(worktree: Pairs, current: Pairs, rows: Pairs, blobs: Seq<Seq<u8>>)
    -> Pairs {
    pruned(written(worktree, rows, blobs, rows.len() as int), current, rows, current.len() as int)
}

/// Writes the files of `rows` into `worktree` and removes the files of
/// `current` that `rows` does not hold.
pub fn write_files(
    worktree: &mut ByteMap,
    current: &ByteMap,
    rows: &ByteMap,
    blobs: &Vec<Vec<u8>>,
)
    requires
        blobs@.len() == rows@.len(),
    ensures
        final(worktree)@ == materialized(old(worktree)@, current@, rows@, views(blobs@)),
        old(worktree).wf() ==> final(worktree).wf(),
{
    let mut i: usize = 0;
    while i < rows.len()
        invariant
            i <= rows@.len(),
            blobs@.len() == rows@.len(),
            worktree@ == written(old(worktree)@, rows@, views(blobs@), i as int),
            old(worktree).wf() ==> worktree.wf(),
        decreases rows@.len() - i,
    {
        let path = copy_range(rows.key_at(i).as_slice(), 0, rows.key_at(i).len());
        let content = copy_range(blobs[i].as_slice(), 0, blobs[i].len());
        proof {
            assert(path@ =~= rows@[i as int].0);
            assert(content@ =~= views(blobs@)[i as int]);
        }
        worktree.insert(path, content);
        i += 1;
    }
    let ghost mid = worktree@;
    let mut j: usize = 0;
    while j < current.len()
        invariant
            j <= current@.len(),
            worktree@ == pruned(mid, current@, rows@, j as int),
            old(worktree).wf() ==> worktree.wf(),
        decreases current@.len() - j,
    {
        if !rows.contains_key(current.key_at(j).as_slice()) {
            worktree.remove(current.key_at(j).as_slice());
        }
        j += 1;
    }
}

proof fn lemma_written_lookup(
    worktree: Pairs,
    rows: Pairs,
    blobs: Seq<Seq<u8>>,
    n: int,
    path: Seq<u8>,
)
    requires
        distinct_keys(rows),
        0 <= n <= rows.len(),
    ensures
        lookup(written(worktree, rows, blobs, n), path) == (if position(rows, path) < n {
            Some(blobs[position(rows, path)])
        } else {
            lookup(worktree, path)
        }),
        distinct_keys(worktree) ==> distinct_keys(written(worktree, rows, blobs, n)),
    decreases n,
{
    lemma_position(rows, path);
    if n > 0 {
        lemma_written_lookup(worktree, rows, blobs, n - 1, path);
        lemma_lookup_entry(rows, n - 1);
        lemma_insert_lookup(
            written(worktree, rows, blobs, n - 1),
            rows[n - 1].0,
            blobs[n - 1],
            path,
        );
        if position(rows, path) == n - 1 {
            assert(rows[n - 1].0 == path);
        }
    }
}

proof fn lemma_pruned_lookup(worktree: Pairs, current: Pairs, rows: Pairs, n: int, path: Seq<u8>)
    requires
        distinct_keys(worktree),
        0 <= n <= current.len(),
    ensures
        distinct_keys(pruned(worktree, current, rows, n)),
        lookup(pruned(worktree, current, rows, n), path) == (if !has_key(rows, path)
            && position(current, path) < n {
            None
        } else {
            lookup(worktree, path)
        }),
    decreases n,
{
    lemma_position(current, path);
    if n > 0 {
        lemma_pruned_lookup(worktree, current, rows, n - 1, path);
        let k = current[n - 1].0;
        let prev = pruned(worktree, current, rows, n - 1);
        if !has_key(rows, k) {
            lemma_remove_lookup(prev, k, path);
        }
        if position(current, path) == n - 1 {
            assert(k == path);
        }
    }
}

/// What the working directory holds after it is made to match `rows`: under
/// a path of `rows` the blob of its row; nothing under a path that only the
/// old index `current` holds; what it held before under any other path.
pub proof fn lemma_materialized_lookup(
    worktree: Pairs,
    current: Pairs,
    rows: Pairs,
    blobs: Seq<Seq<u8>>,
    path: Seq<u8>,
)
    requires
        distinct_keys(worktree),
        distinct_keys(rows),
    ensures
        distinct_keys(materialized(worktree, current, rows, blobs)),
        lookup(materialized(worktree, current, rows, blobs), path) == (if has_key(rows, path) {
            Some(blobs[position(rows, path)])
        } else if has_key(current, path) {
            None
        } else {
            lookup(worktree, path)
        }),
{
    let w = written(worktree, rows, blobs, rows.len() as int);
    lemma_written_lookup(worktree, rows, blobs, rows.len() as int, path);
    lemma_pruned_lookup(w, current, rows, current.len() as int, path);
}

/// The repository once it is reset to the commit under `hash`.
///
/// The checked-out branch points at `hash`, the staging file is gone, the
/// index holds the rows of the commit's tree, and the working directory
/// matches them. Fails with `NotFound` where `hash` names no commit, where
/// `HEAD`, the tree, the index or a blob is absent, with `InvalidData` where
/// the commit names no tree or a stored text is malformed, and with `Io`
/// where an object cannot be decompressed.
pub open spec fn spec_reset(v: RepoView, hash: Seq<u8>) -> Result<RepoView, FitError> {
    match spec_commit_payload(v.objects, hash) {
        Err(e) => Err(e),
        Ok(payload) => match spec_current_branch(v.head) {
            Err(e) => Err(e),
            Ok(branch) => match tree_of(payload) {
                None => Err(FitError::InvalidData),
                Some(tree) => match spec_tree_files(v.objects, tree) {
                    Err(e) => Err(e),
                    Ok(rows) => match spec_read_index(v.index) {
                        Err(e) => Err(e),
                        Ok(current) => match blobs_of(v.objects, rows, rows.len() as int) {
                            Err(e) => Err(e),
                            Ok(blobs) => Ok(
                                RepoView {
                                    refs: spec_insert(v.refs, branch, hash),
                                    staging: None,
                                    index: Some(index_text(rows)),
                                    worktree: materialized(v.worktree, current, rows, blobs),
                                    ..v
                                },
                            ),
                        },
                    },
                },
            },
        }
    }
}

/// The rows of the tree of the commit under `hash`, where a reset to it
/// succeeds.
pub open spec fn reset_rows(v: RepoView, hash: Seq<u8>) -> Pairs {
    spec_tree_files(v.objects, tree_of(spec_commit_payload(v.objects, hash)->Ok_0)->Some_0)->Ok_0
}

/// What `path` holds in the working directory after a reset to a commit
/// whose tree has `rows`, from a repository whose index had `current`: the
/// payload of the blob of its row; nothing where only the old index held the
/// path; what it held before otherwise.
pub open spec fn reset_file(v: RepoView, rows: Pairs, current: Pairs, path: Seq<u8>) -> Option<
    Seq<u8>,
> {
    match lookup(rows, path) {
        Some(h) => Some(spec_payload(v.objects, h)->Ok_0),
        None => if has_key(current, path) {
            None
        } else {
            lookup(v.worktree, path)
        },
    }
}

/// After a reset the working directory matches the tree of the commit: each
/// path of the tree holds the payload of its blob, each path that only the
/// old index held is gone, and no other file is touched. The index holds the
/// rows of the tree, and the checked-out branch points at the commit.
pub proof fn lemma_reset_result(v: RepoView, hash: Seq<u8>, path: Seq<u8>)
    requires
        spec_reset(v, hash) is Ok,
        distinct_keys(v.worktree),
    ensures
        ({
            let done = spec_reset(v, hash)->Ok_0;
            let rows = reset_rows(v, hash);
            &&& distinct_keys(rows)
            &&& crate::index::clean(rows)
            &&& distinct_keys(done.worktree)
            &&& done.index == Some(index_text(rows))
            &&& done.refs == spec_insert(v.refs, spec_current_branch(v.head)->Ok_0, hash)
            &&& lookup(done.worktree, path) == reset_file(
                v,
                rows,
                spec_read_index(v.index)->Ok_0,
                path,
            )
            &&& lookup(rows, path) matches Some(h) ==> spec_payload(v.objects, h) is Ok
        }),
{
    let payload = spec_commit_payload(v.objects, hash)->Ok_0;
    let tree = tree_of(payload)->Some_0;
    let rows = reset_rows(v, hash);
    let current = spec_read_index(v.index)->Ok_0;
    let blobs = blobs_of(v.objects, rows, rows.len() as int)->Ok_0;
    let tree_payload = spec_payload(v.objects, tree)->Ok_0;
    crate::index::lemma_rows_clean(crate::text::spec_lines(tree_payload), 2, 3);
    lemma_blobs_len(v.objects, rows, rows.len() as int);
    lemma_materialized_lookup(v.worktree, current, rows, blobs, path);
    lemma_position(rows, path);
    if has_key(rows, path) {
        let i = position(rows, path);
        assert(spec_payload(v.objects, rows[i].1) == Ok::<Seq<u8>, FitError>(blobs[i]));
    }
}

/// Resets the repository to the commit under `commit_hash`. On failure
/// nothing changes.
pub fn reset_workflow(repo: &mut Repository, commit_hash: &[u8]) -> (r: Result<(), FitError>)
    ensures
        match spec_reset(old(repo)@, commit_hash@) {
            Ok(v) => r is Ok && final(repo)@ == v,
            Err(e) => r == Err::<(), FitError>(e) && final(repo)@ == old(repo)@,
        },
        old(repo).wf() ==> final(repo).wf(),
{
    let payload = match read_commit(&repo.objects, commit_hash) {
        Err(e) => { return Err(e); },
        Ok(p) => p,
    };
    let branch = match get_current_branch(repo) {
        Err(e) => { return Err(e); },
        Ok(b) => b,
    };
    let tree = match tree_of_payload(payload.as_slice()) {
        None => { return Err(FitError::InvalidData); },
        Some(t) => t,
    };
    let rows = match get_tree_files(&repo.objects, tree.as_slice()) {
        Err(e) => { return Err(e); },
        Ok(m) => m,
    };
    let current = match read_index(repo) {
        Err(e) => { return Err(e); },
        Ok(m) => m,
    };
    let blobs = match read_blobs(&repo.objects, &rows) {
        Err(e) => { return Err(e); },
        Ok(b) => b,
    };
    proof {
        lemma_blobs_len(repo@.objects, rows@, rows@.len() as int);
    }
    let hash = copy_range(commit_hash, 0, commit_hash.len());
    proof {
        assert(hash@ =~= commit_hash@);
    }
    repo.refs.insert(branch, hash);
    repo.staging = None;
    write_files(&mut repo.worktree, &current, &rows, &blobs);
    repo.index = Some(render_index(&rows));
    Ok(())
}

} // verus!
