//! Merging a branch into `master`, as far as a fast-forward goes.

use vstd::prelude::*;
use crate::bytes::bytes_eq;
use crate::error::FitError;
use crate::bytemap::{distinct_keys, has_key, lemma_insert_lookup, lookup};
use crate::history::{
    find_merge_base, lemma_merge_base_of_descendant, spec_history, spec_merge_base,
};
use crate::index::spec_read_index;
use crate::materialize::{lemma_reset_result, reset_file, reset_rows, reset_workflow, spec_reset};
use crate::refs::{
    get_branch_commit, get_current_branch, get_current_commit, heads_dir, master, master_bytes,
    ref_word, spec_branch_commit, spec_current_branch, spec_current_commit,
};
use crate::text::spec_trim;
use crate::repo::{RepoView, Repository};

verus! {

/// How a merge ended.
#[derive(Clone, Copy, Debug, PartialEq, Eq, Structural)]
pub enum MergeOutcome {
    /// The branch holds nothing that `master` lacks.
    UpToDate,
    /// `master` moved forward to the commit of the branch.
    FastForward,
    /// The two branches have diverged; merging them is not supported, and
    /// nothing was changed.
    Unsupported,
}

/// Moves the checked-out branch forward to `branch_commit` and makes the
/// working directory and the index match it. On failure nothing changes.
pub fn fast_forward_merge(repo: &mut Repository, branch_commit: &[u8]) -> (r: Result<
    (),
    FitError,
>)
    ensures
        match spec_reset(old(repo)@, branch_commit@) {
            Ok(v) => r is Ok && final(repo)@ == v,
            Err(e) => r == Err::<(), FitError>(e) && final(repo)@ == old(repo)@,
        },
        old(repo).wf() ==> final(repo).wf(),
{
    reset_workflow(repo, branch_commit)
}

/// What merging `branch` does.
///
/// `InvalidInput` where `branch` is checked out; `PermissionDenied` unless
/// `master` is checked out and `branch` is another branch. Where both
/// branches are at one commit, or the merge base is the commit of `branch`,
/// nothing is to be done. Where the merge base is the commit of `master`,
/// the repository is reset to the commit of `branch`. Otherwise the merge is
/// not supported and nothing changes.
pub open spec fn spec_merge(v: RepoView, branch: Seq<u8>) -> Result<
    (RepoView, MergeOutcome),
    FitError,
> {
    match spec_current_branch(v.head) {
        Err(e) => Err(e),
        Ok(current) => if current == branch {
            Err(FitError::InvalidInput)
        } else if branch == master() || current != master() {
            Err(FitError::PermissionDenied)
        } else {
            match spec_current_commit(v) {
                Err(e) => Err(e),
                Ok(ours) => match spec_branch_commit(v.refs, branch) {
                    Err(e) => Err(e),
                    Ok(theirs) => if ours == theirs {
                        Ok((v, MergeOutcome::UpToDate))
                    } else {
                        match spec_merge_base(v.objects, ours, theirs) {
                            Err(e) => Err(e),
                            Ok(base) => if base == theirs {
                                Ok((v, MergeOutcome::UpToDate))
                            } else if base == ours {
                                match spec_reset(v, theirs) {
                                    Err(e) => Err(e),
                                    Ok(done) => Ok((done, MergeOutcome::FastForward)),
                                }
                            } else {
                                Ok((v, MergeOutcome::Unsupported))
                            },
                        }
                    },
                },
            }
        },
    }
}

/// In a text that begins with `ref: refs/heads/`, what follows `refs/heads/`
/// in what follows `ref: ` is what follows the whole.
proof fn lemma_head_name(t: Seq<u8>)
    requires
        ref_word().is_prefix_of(t),
        heads_dir().is_prefix_of(t.subrange(5, t.len() as int)),
    ensures
        (ref_word() + heads_dir()).is_prefix_of(t),
        t.subrange(5, t.len() as int).subrange(11, t.len() - 5) == t.subrange(16, t.len() as int),
{
    let path = t.subrange(5, t.len() as int);
    let both = ref_word() + heads_dir();
    assert(both =~= t.subrange(0, 16)) by {
        assert forall|k: int| 0 <= k < 16 implies both[k] == t[k] by {
            if k < 5 {
                assert(t.subrange(0, 5)[k] == t[k]);
            } else {
                assert(path.subrange(0, 11)[k - 5] == path[k - 5]);
                assert(path[k - 5] == t[k]);
            }
        }
    }
    assert(path.subrange(11, path.len() as int) =~= t.subrange(16, t.len() as int));
}

/// Where `HEAD` resolves to a commit, the branch it is taken to name is the
/// branch whose file is read.
pub proof fn lemma_head_branch(v: RepoView)
    requires
        spec_current_commit(v) is Ok,
    ensures
        spec_current_branch(v.head) is Ok,
        spec_current_commit(v) == spec_branch_commit(v.refs, spec_current_branch(v.head)->Ok_0),
{
    lemma_head_name(spec_trim(v.head->Some_0));
}

/// Fast-forward correctness: where `master` is checked out at a commit that
/// the ancestry of another branch holds, and the two are at different
/// commits, merging the branch resets the repository to the commit of the
/// branch. Afterwards `HEAD` resolves to that commit, and the working
/// directory matches its tree.
pub proof fn lemma_fast_forward(v: RepoView, branch: Seq<u8>)
    requires
        spec_current_branch(v.head) == Ok::<Seq<u8>, FitError>(master()),
        branch != master(),
        spec_current_commit(v) is Ok,
        spec_branch_commit(v.refs, branch) is Ok,
        spec_current_commit(v)->Ok_0 != spec_branch_commit(v.refs, branch)->Ok_0,
        spec_history(v.objects, spec_branch_commit(v.refs, branch)->Ok_0) is Ok,
        spec_history(v.objects, spec_branch_commit(v.refs, branch)->Ok_0)->Ok_0.contains(
            spec_current_commit(v)->Ok_0,
        ),
        spec_reset(v, spec_branch_commit(v.refs, branch)->Ok_0) is Ok,
        distinct_keys(v.worktree),
    ensures
        ({
            let theirs = spec_branch_commit(v.refs, branch)->Ok_0;
            let done = spec_reset(v, theirs)->Ok_0;
            &&& spec_merge(v, branch) == Ok::<(RepoView, MergeOutcome), FitError>(
                (done, MergeOutcome::FastForward),
            )
            &&& spec_current_commit(done) == Ok::<Seq<u8>, FitError>(theirs)
            &&& forall|path: Seq<u8>|
                lookup(done.worktree, path) == #[trigger] reset_file(
                    v,
                    reset_rows(v, theirs),
                    spec_read_index(v.index)->Ok_0,
                    path,
                )
        }),
{
    let ours = spec_current_commit(v)->Ok_0;
    let theirs = spec_branch_commit(v.refs, branch)->Ok_0;
    let done = spec_reset(v, theirs)->Ok_0;
    lemma_merge_base_of_descendant(v.objects, ours, theirs);
    lemma_head_branch(v);
    lemma_reset_result(v, theirs, master());
    lemma_insert_lookup(v.refs, master(), theirs, master());
    crate::text_laws::lemma_trim_idempotent(lookup(v.refs, branch)->Some_0);
    assert(done.head == v.head);
    lemma_head_branch_of(done, v);
    assert forall|path: Seq<u8>|
        lookup(done.worktree, path) == #[trigger] reset_file(
            v,
            reset_rows(v, theirs),
            spec_read_index(v.index)->Ok_0,
            path,
        ) by {
        lemma_reset_result(v, theirs, path);
    }
}

/// Resolving `HEAD` goes by `HEAD` and the branch files alone.
proof fn lemma_head_branch_of(done: RepoView, v: RepoView)
    requires
        done.head == v.head,
        spec_current_commit(v) is Ok,
        has_key(done.refs, spec_current_branch(v.head)->Ok_0),
    ensures
        spec_current_commit(done) == spec_branch_commit(
            done.refs,
            spec_current_branch(v.head)->Ok_0,
        ),
{
    lemma_head_branch(v);
    lemma_head_name(spec_trim(v.head->Some_0));
}

/// Merges `branch` into `master`. On failure nothing changes.
pub fn merge_workflow(repo: &mut Repository, branch: &[u8]) -> (r: Result<
    MergeOutcome,
    FitError,
>)
    ensures
        match spec_merge(old(repo)@, branch@) {
            Ok((v, outcome)) => r == Ok::<MergeOutcome, FitError>(outcome) && final(repo)@ == v,
            Err(e) => r == Err::<MergeOutcome, FitError>(e) && final(repo)@ == old(repo)@,
        },
        old(repo).wf() ==> final(repo).wf(),
{
    let current = match get_current_branch(repo) {
        Err(e) => { return Err(e); },
        Ok(c) => c,
    };
    if bytes_eq(current.as_slice(), branch) {
        return Err(FitError::InvalidInput);
    }
    let m = master_bytes();
    if bytes_eq(branch, m.as_slice()) || !bytes_eq(current.as_slice(), m.as_slice()) {
        return Err(FitError::PermissionDenied);
    }
    let ours = match get_current_commit(repo) {
        Err(e) => { return Err(e); },
        Ok(c) => c,
    };
    let theirs = match get_branch_commit(repo, branch) {
        Err(e) => { return Err(e); },
        Ok(c) => c,
    };
    if bytes_eq(ours.as_slice(), theirs.as_slice()) {
        return Ok(MergeOutcome::UpToDate);
    }
    let base = match find_merge_base(&repo.objects, ours.as_slice(), theirs.as_slice()) {
        Err(e) => { return Err(e); },
        Ok(b) => b,
    };
    if bytes_eq(base.as_slice(), theirs.as_slice()) {
        Ok(MergeOutcome::UpToDate)
    } else if bytes_eq(base.as_slice(), ours.as_slice()) {
        match fast_forward_merge(repo, theirs.as_slice()) {
            Err(e) => Err(e),
            Ok(_) => Ok(MergeOutcome::FastForward),
        }
    } else {
        Ok(MergeOutcome::Unsupported)
    }
}

} // verus!
