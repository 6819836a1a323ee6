//! `HEAD` and the branches.
//!
//! `HEAD` holds `ref: refs/heads/<branch>`; each branch is a file that holds
//! the hash of its latest commit.

use vstd::prelude::*;
use crate::bytemap::{has_key, lookup, spec_insert, spec_remove, Pairs};
use crate::bytes::{append, bytes_eq, copy_range, starts_with};
use crate::error::FitError;
use crate::repo::{RepoView, Repository};
use crate::text::{spec_trim, trim};
use crate::tree::bytes_view;

verus! {

/// `ref: `, which `HEAD` begins with.
pub open spec fn ref_word() -> Seq<u8> {
    seq!['r' as u8, 'e' as u8, 'f' as u8, ':' as u8, 32u8]
}

/// `refs/heads/`, the directory of the branches.
pub open spec fn heads_dir() -> Seq<u8> {
    seq![
        'r' as u8,
        'e' as u8,
        'f' as u8,
        's' as u8,
        '/' as u8,
        'h' as u8,
        'e' as u8,
        'a' as u8,
        'd' as u8,
        's' as u8,
        '/' as u8,
    ]
}

/// The name of the first branch.
pub open spec fn master() -> Seq<u8> {
    seq!['m' as u8, 'a' as u8, 's' as u8, 't' as u8, 'e' as u8, 'r' as u8]
}

/// The content of `HEAD` while `branch` is checked out.
pub open spec fn head_text(branch: Seq<u8>) -> Seq<u8> {
    ref_word() + heads_dir() + branch + seq![10u8]
}

fn ref_word_bytes() -> (r: Vec<u8>)
    ensures
        r@ == ref_word(),
{
    let r: Vec<u8> = vec!['r' as u8, 'e' as u8, 'f' as u8, ':' as u8, 32u8];
    proof {
        assert(r@ =~= ref_word());
    }
    r
}

fn heads_dir_bytes() -> (r: Vec<u8>)
    ensures
        r@ == heads_dir(),
{
    let r: Vec<u8> = vec![
        'r' as u8,
        'e' as u8,
        'f' as u8,
        's' as u8,
        '/' as u8,
        'h' as u8,
        'e' as u8,
        'a' as u8,
        'd' as u8,
        's' as u8,
        '/' as u8,
    ];
    proof {
        assert(r@ =~= heads_dir());
    }
    r
}

/// The name of the first branch.
pub fn master_bytes() -> (r: Vec<u8>)
    ensures
        r@ == master(),
{
    let r: Vec<u8> = vec!['m' as u8, 'a' as u8, 's' as u8, 't' as u8, 'e' as u8, 'r' as u8];
    proof {
        assert(r@ =~= master());
    }
    r
}

/// The content of `HEAD` while `branch` is checked out.
pub fn render_head(branch: &[u8]) -> (r: Vec<u8>)
    ensures
        r@ == head_text(branch@),
{
    let mut out = ref_word_bytes();
    let dir = heads_dir_bytes();
    append(&mut out, dir.as_slice());
    append(&mut out, branch);
    out.push(10u8);
    out
}

/// The branch that `HEAD` names: what follows `ref: refs/heads/` in its
/// trimmed content, or `master` where the content does not begin so.
/// `NotFound` where `HEAD` is absent.
pub open spec fn spec_current_branch(head: Option<Seq<u8>>) -> Result<Seq<u8>, FitError> {
    match head {
        None => Err(FitError::NotFound),
        Some(h) => {
            let t = spec_trim(h);
            if (ref_word() + heads_dir()).is_prefix_of(t) {
                Ok(t.subrange(16, t.len() as int))
            } else {
                Ok(master())
            }
        },
    }
}

/// The commit that `HEAD` resolves to: the trimmed content of the branch file
/// that `HEAD` names. `NotFound` where `HEAD` or that file is absent,
/// `InvalidData` where `HEAD` does not begin with `ref: `.
pub open spec fn spec_current_commit(v: RepoView) -> Result<Seq<u8>, FitError> {
    match v.head {
        None => Err(FitError::NotFound),
        Some(h) => {
            let t = spec_trim(h);
            if !ref_word().is_prefix_of(t) {
                Err(FitError::InvalidData)
            } else {
                let path = t.subrange(5, t.len() as int);
                if !heads_dir().is_prefix_of(path) {
                    Err(FitError::NotFound)
                } else {
                    spec_branch_commit(v.refs, path.subrange(11, path.len() as int))
                }
            }
        },
    }
}

/// The commit of branch `name`: the trimmed content of its file. `NotFound`
/// where there is no such branch.
pub open spec fn spec_branch_commit(refs: Pairs, name: Seq<u8>) -> Result<Seq<u8>, FitError> {
    match lookup(refs, name) {
        None => Err(FitError::NotFound),
        Some(c) => Ok(spec_trim(c)),
    }
}

/// The name of the branch that is checked out.
pub fn get_current_branch(repo: &Repository) -> (r: Result<Vec<u8>, FitError>)
    ensures
        bytes_view(r) == spec_current_branch(repo@.head),
{
    match &repo.head {
        None => Err(FitError::NotFound),
        Some(h) => {
            let t = trim(h.as_slice());
            let mut prefix = ref_word_bytes();
            let dir = heads_dir_bytes();
            append(&mut prefix, dir.as_slice());
            if starts_with(t.as_slice(), prefix.as_slice()) {
                Ok(copy_range(t.as_slice(), 16, t.len()))
            } else {
                Ok(master_bytes())
            }
        },
    }
}

/// The hash of the commit of branch `name`.
pub fn get_branch_commit(repo: &Repository, name: &[u8]) -> (r: Result<Vec<u8>, FitError>)
    ensures
        bytes_view(r) == spec_branch_commit(repo@.refs, name@),
{
    match repo.refs.get(name) {
        None => Err(FitError::NotFound),
        Some(c) => Ok(trim(c.as_slice())),
    }
}

/// The hash of the commit that `HEAD` resolves to.
pub fn get_current_commit(repo: &Repository) -> (r: Result<Vec<u8>, FitError>)
    ensures
        bytes_view(r) == spec_current_commit(repo@),
{
    match &repo.head {
        None => Err(FitError::NotFound),
        Some(h) => {
            let t = trim(h.as_slice());
            let word = ref_word_bytes();
            if !starts_with(t.as_slice(), word.as_slice()) {
                return Err(FitError::InvalidData);
            }
            let path = copy_range(t.as_slice(), 5, t.len());
            let dir = heads_dir_bytes();
            if !starts_with(path.as_slice(), dir.as_slice()) {
                return Err(FitError::NotFound);
            }
            let name = copy_range(path.as_slice(), 11, path.len());
            get_branch_commit(repo, name.as_slice())
        },
    }
}

/// The repository once the checked-out branch points at `commit_hash`.
pub open spec fn spec_update_branch(v: RepoView, commit_hash: Seq<u8>) -> Result<
    RepoView,
    FitError,
> {
    match spec_current_branch(v.head) {
        Err(e) => Err(e),
        Ok(branch) => Ok(RepoView { refs: spec_insert(v.refs, branch, commit_hash), ..v }),
    }
}

/// Points the checked-out branch at `commit_hash`. Fails, changing nothing,
/// with `NotFound` where `HEAD` is absent.
pub fn update_current_branch(repo: &mut Repository, commit_hash: &[u8]) -> (r: Result<
    (),
    FitError,
>)
    ensures
        match spec_update_branch(old(repo)@, commit_hash@) {
            Ok(v) => r is Ok && final(repo)@ == v,
            Err(e) => r == Err::<(), FitError>(e) && final(repo)@ == old(repo)@,
        },
        old(repo).wf() ==> final(repo).wf(),
{
    match get_current_branch(repo) {
        Err(e) => Err(e),
        Ok(branch) => {
            let hash = copy_range(commit_hash, 0, commit_hash.len());
            proof {
                assert(hash@ =~= commit_hash@);
            }
            repo.refs.insert(branch, hash);
            Ok(())
        },
    }
}

/// The names of the branches, in the order of the directory.
pub open spec fn branch_names(refs: Pairs) -> Seq<Seq<u8>> {
    Seq::new(refs.len(), |i: int| refs[i].0)
}

/// Lists the branches.
pub fn list_branches(repo: &Repository) -> (r: Vec<Vec<u8>>)
    ensures
        crate::text::views(r@) == branch_names(repo@.refs),
{
    let mut out: Vec<Vec<u8>> = Vec::new();
    let mut i: usize = 0;
    while i < repo.refs.len()
        invariant
            i <= repo.refs@.len(),
            out@.len() == i,
            forall|j: int| 0 <= j < i ==> (#[trigger] out@[j])@ == repo.refs@[j].0,
        decreases repo.refs@.len() - i,
    {
        let name = copy_range(repo.refs.key_at(i).as_slice(), 0, repo.refs.key_at(i).len());
        proof {
            assert(name@ =~= repo.refs@[i as int].0);
        }
        out.push(name);
        i += 1;
    }
    proof {
        assert(crate::text::views(out@) =~= branch_names(repo@.refs));
    }
    out
}

/// The repository once branch `name` is created at the current commit.
/// `PermissionDenied` for `master`, the failure of resolving `HEAD`, then
/// `AlreadyExists` where the branch is there.
pub open spec fn spec_create_branch(v: RepoView, name: Seq<u8>) -> Result<RepoView, FitError> {
    if name == master() {
        Err(FitError::PermissionDenied)
    } else {
        match spec_current_commit(v) {
            Err(e) => Err(e),
            Ok(c) => if has_key(v.refs, name) {
                Err(FitError::AlreadyExists)
            } else {
                Ok(RepoView { refs: spec_insert(v.refs, name, c), ..v })
            },
        }
    }
}

/// Creates branch `name` at the current commit. On failure nothing changes.
pub fn create_branch(repo: &mut Repository, name: &[u8]) -> (r: Result<(), FitError>)
    ensures
        match spec_create_branch(old(repo)@, name@) {
            Ok(v) => r is Ok && final(repo)@ == v,
            Err(e) => r == Err::<(), FitError>(e) && final(repo)@ == old(repo)@,
        },
        old(repo).wf() ==> final(repo).wf(),
{
    let m = master_bytes();
    if bytes_eq(name, m.as_slice()) {
        return Err(FitError::PermissionDenied);
    }
    match get_current_commit(repo) {
        Err(e) => Err(e),
        Ok(c) => {
            if repo.refs.contains_key(name) {
                return Err(FitError::AlreadyExists);
            }
            let key = copy_range(name, 0, name.len());
            proof {
                assert(key@ =~= name@);
            }
            repo.refs.insert(key, c);
            Ok(())
        },
    }
}

/// The repository once branch `name` is deleted. `PermissionDenied` for
/// `master` and for the branch that is checked out, `NotFound` where there is
/// no such branch.
pub open spec fn spec_delete_branch(v: RepoView, name: Seq<u8>) -> Result<RepoView, FitError> {
    if name == master() {
        Err(FitError::PermissionDenied)
    } else {
        match spec_current_branch(v.head) {
            Err(e) => Err(e),
            Ok(b) => if b == name {
                Err(FitError::PermissionDenied)
            } else if !has_key(v.refs, name) {
                Err(FitError::NotFound)
            } else {
                Ok(RepoView { refs: spec_remove(v.refs, name), ..v })
            },
        }
    }
}

/// Deletes branch `name`. On failure nothing changes.
pub fn delete_branch(repo: &mut Repository, name: &[u8]) -> (r: Result<(), FitError>)
    ensures
        match spec_delete_branch(old(repo)@, name@) {
            Ok(v) => r is Ok && final(repo)@ == v,
            Err(e) => r == Err::<(), FitError>(e) && final(repo)@ == old(repo)@,
        },
        old(repo).wf() ==> final(repo).wf(),
{
    let m = master_bytes();
    if bytes_eq(name, m.as_slice()) {
        return Err(FitError::PermissionDenied);
    }
    match get_current_branch(repo) {
        Err(e) => Err(e),
        Ok(b) => {
            if bytes_eq(b.as_slice(), name) {
                return Err(FitError::PermissionDenied);
            }
            if !repo.refs.contains_key(name) {
                return Err(FitError::NotFound);
            }
            repo.refs.remove(name);
            Ok(())
        },
    }
}

} // verus!
