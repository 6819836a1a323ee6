//! `init` and the commit pipeline.

use vstd::prelude::*;
use crate::bytemap::{spec_insert, spec_remove, ByteMap, Pairs};
use crate::bytes::{copy_range, is_token};
use crate::materialize::spec_commit_payload;
use crate::commit::{
    commit_text, create_commit, create_initial_commit, initial_message,
};
use crate::error::FitError;
use crate::index::{index_text, read_index, render_index, spec_read_index};
use crate::object::{deflates, spec_hash, spec_put, ObjectKind};
use crate::refs::{
    get_current_branch, get_current_commit, head_text, master, master_bytes, render_head,
    spec_current_branch, spec_current_commit,
};
use crate::repo::{RepoView, Repository};
use crate::staging::{StagingArea, StagingView};
use crate::staging_file::{read_staging_area, staging_of};
use crate::tree::{create_empty_tree, create_tree_object, tree_text};

verus! {

/// The repository that `init` creates: `HEAD` on `master`, an empty index,
/// the empty tree, the first commit, and `master` pointing at it.
/// `AlreadyExists` where a repository is there.
pub open spec fn spec_init(v: RepoView) -> Result<RepoView, FitError> {
    if v.exists {
        Err(FitError::AlreadyExists)
    } else {
        let tree = spec_hash(ObjectKind::Tree, Seq::empty());
        let text = commit_text(tree, None, initial_message());
        Ok(
            RepoView {
                exists: true,
                head: Some(head_text(master())),
                index: Some(Seq::empty()),
                objects: spec_put(
                    spec_put(v.objects, ObjectKind::Tree, Seq::empty()),
                    ObjectKind::Commit,
                    text,
                ),
                refs: spec_insert(v.refs, master(), spec_hash(ObjectKind::Commit, text)),
                ..v
            },
        )
    }
}

/// The first commit of a repository reads back from its store as a commit,
/// under a hash without white space.
pub open spec fn initial_commit_reads_back(v: RepoView) -> bool {
    let hash = spec_hash(
        ObjectKind::Commit,
        commit_text(spec_hash(ObjectKind::Tree, Seq::empty()), None, initial_message()),
    );
    is_token(hash) && spec_commit_payload(v.objects, hash) is Ok
}

/// What an operation that writes two objects leaves behind where one of the
/// two fails to compress: nothing has changed where it is the first; the
/// first is in the store, and nothing else has changed, where it is the
/// second.
pub open spec fn writes_failed(
    before: RepoView,
    after: RepoView,
    first: (ObjectKind, Seq<u8>),
    second: (ObjectKind, Seq<u8>),
) -> bool {
    if !deflates(first.0, first.1) {
        after == before
    } else {
        !deflates(second.0, second.1) && after == (RepoView {
            objects: spec_put(before.objects, first.0, first.1),
            ..before
        })
    }
}

/// The first commit of a repository.
pub open spec fn initial_commit() -> Seq<u8> {
    commit_text(spec_hash(ObjectKind::Tree, Seq::empty()), None, initial_message())
}

/// Creates the repository.
///
/// Where a repository is there nothing changes. Where the compression of
/// the empty tree or of the first commit fails the result is `Io`, and at
/// most the empty tree was written. Otherwise the repository is created.
pub fn init_workflow(repo: &mut Repository) -> (r: Result<(), FitError>)
    ensures
        match spec_init(old(repo)@) {
            Err(e) => r == Err::<(), FitError>(e) && final(repo)@ == old(repo)@,
            Ok(v) => if deflates(ObjectKind::Tree, Seq::empty()) && deflates(
                ObjectKind::Commit,
                initial_commit(),
            ) {
                r is Ok && final(repo)@ == v && initial_commit_reads_back(v)
            } else {
                r == Err::<(), FitError>(FitError::Io) && writes_failed(
                    old(repo)@,
                    final(repo)@,
                    (ObjectKind::Tree, Seq::empty()),
                    (ObjectKind::Commit, initial_commit()),
                )
            },
        },
        old(repo).wf() ==> final(repo).wf(),
{
    if repo.exists {
        return Err(FitError::AlreadyExists);
    }
    let tree = match create_empty_tree(&mut repo.objects) {
        Err(e) => { return Err(e); },
        Ok(t) => t,
    };
    let commit = match create_initial_commit(&mut repo.objects, tree.as_slice()) {
        Err(e) => { return Err(e); },
        Ok(c) => c,
    };
    let m = master_bytes();
    repo.exists = true;
    repo.head = Some(render_head(m.as_slice()));
    repo.index = Some(Vec::new());
    repo.refs.insert(m, commit);
    Ok(())
}

/// `index` with the first `n` entries of `entries` stored in it.
pub open spec fn put_all(index: Pairs, entries: Pairs, n: int) -> Pairs
    decreases n,
{
    if n <= 0 {
        index
    } else {
        spec_insert(put_all(index, entries, n - 1), entries[n - 1].0, entries[n - 1].1)
    }
}

/// `index` without the keys of the first `n` entries of `entries`.
pub open spec fn drop_all(index: Pairs, entries: Pairs, n: int) -> Pairs
    decreases n,
{
    if n <= 0 {
        index
    } else {
        spec_remove(drop_all(index, entries, n - 1), entries[n - 1].0)
    }
}

/// The index once the staging delta is applied: new and changed paths
/// stored, removed paths dropped.
pub open spec fn applied(index: Pairs, s: StagingView) -> Pairs {
    drop_all(
        put_all(put_all(index, s.added, s.added.len() as int), s.modified, s.modified.len() as int),
        s.deleted,
        s.deleted.len() as int,
    )
}

fn store_all(index: &mut ByteMap, entries: &ByteMap)
    ensures
        final(index)@ == put_all(old(index)@, entries@, entries@.len() as int),
        old(index).wf() ==> final(index).wf(),
{
    let mut i: usize = 0;
    while i < entries.len()
        invariant
            i <= entries@.len(),
            index@ == put_all(old(index)@, entries@, i as int),
            old(index).wf() ==> index.wf(),
        decreases entries@.len() - i,
    {
        let k = copy_range(entries.key_at(i).as_slice(), 0, entries.key_at(i).len());
        let v = copy_range(entries.value_at(i).as_slice(), 0, entries.value_at(i).len());
        proof {
            assert(k@ =~= entries@[i as int].0);
            assert(v@ =~= entries@[i as int].1);
        }
        index.insert(k, v);
        i += 1;
    }
}

/// Applies the staging delta to `index`.
pub fn apply_staging(index: &mut ByteMap, staging: &StagingArea)
    ensures
        final(index)@ == applied(old(index)@, staging@),
        old(index).wf() ==> final(index).wf(),
{
    store_all(index, staging.added());
    store_all(index, staging.modified());
    let deleted = staging.deleted();
    let ghost mid = index@;
    let mut i: usize = 0;
    while i < deleted.len()
        invariant
            i <= deleted@.len(),
            index@ == drop_all(mid, deleted@, i as int),
            old(index).wf() ==> index.wf(),
        decreases deleted@.len() - i,
    {
        index.remove(deleted.key_at(i).as_slice());
        i += 1;
    }
}

/// The tree payload that a commit of the staged changes records.
pub open spec fn staged_tree(v: RepoView) -> Seq<u8> {
    tree_text(applied(spec_read_index(v.index)->Ok_0, staging_of(v.staging)))
}

/// The payload of the commit of the staged changes with `message`.
pub open spec fn staged_commit(v: RepoView, message: Seq<u8>) -> Seq<u8> {
    commit_text(
        spec_hash(ObjectKind::Tree, staged_tree(v)),
        Some(spec_current_commit(v)->Ok_0),
        message,
    )
}

/// What `commit` with `message` does.
///
/// Nothing, with no hash, where no change is pending. Else the staging delta
/// is applied to the index, the tree of the index and a commit of that tree
/// on top of the current commit are written, the checked-out branch points at
/// the commit, the staging file is gone and the index is rewritten; the hash
/// of the commit is returned. Fails where the index cannot be read or `HEAD`
/// does not resolve.
pub open spec fn spec_commit(v: RepoView, message: Seq<u8>) -> Result<
    Option<(RepoView, Seq<u8>)>,
    FitError,
> {
    let s = staging_of(v.staging);
    if s.added.len() == 0 && s.modified.len() == 0 && s.deleted.len() == 0 {
        Ok(None)
    } else {
        match spec_read_index(v.index) {
            Err(e) => Err(e),
            Ok(index) => match spec_current_commit(v) {
                Err(e) => Err(e),
                Ok(parent) => match spec_current_branch(v.head) {
                    Err(e) => Err(e),
                    Ok(branch) => {
                        let idx = applied(index, s);
                        let tree = spec_hash(ObjectKind::Tree, tree_text(idx));
                        let text = commit_text(tree, Some(parent), message);
                        let hash = spec_hash(ObjectKind::Commit, text);
                        Ok(
                            Some(
                                (
                                    RepoView {
                                        objects: spec_put(
                                            spec_put(v.objects, ObjectKind::Tree, tree_text(idx)),
                                            ObjectKind::Commit,
                                            text,
                                        ),
                                        refs: spec_insert(v.refs, branch, hash),
                                        staging: None,
                                        index: Some(index_text(idx)),
                                        ..v
                                    },
                                    hash,
                                ),
                            ),
                        )
                    },
                },
            },
        }
    }
}

/// Commits the staged changes with `message` and returns the hash of the
/// commit, or nothing where no change is pending.
///
/// Where the index cannot be read or `HEAD` does not resolve nothing
/// changes. Where the compression of the tree or of the commit fails the
/// result is `Io`, and at most the tree was written. Otherwise the commit is
/// made.
pub fn commit_workflow(repo: &mut Repository, message: &[u8]) -> (r: Result<
    Option<Vec<u8>>,
    FitError,
>)
    ensures
        match spec_commit(old(repo)@, message@) {
            Err(e) => r == Err::<Option<Vec<u8>>, FitError>(e) && final(repo)@ == old(repo)@,
            Ok(None) => r == Ok::<Option<Vec<u8>>, FitError>(None) && final(repo)@ == old(repo)@,
            Ok(Some((v, k))) => if deflates(ObjectKind::Tree, staged_tree(old(repo)@))
                && deflates(ObjectKind::Commit, staged_commit(old(repo)@, message@)) {
                &&& r matches Ok(Some(h))
                &&& h@ == k
                &&& final(repo)@ == v
                &&& is_token(h@)
                &&& spec_commit_payload(v.objects, k) is Ok
            } else {
                r == Err::<Option<Vec<u8>>, FitError>(FitError::Io) && writes_failed(
                    old(repo)@,
                    final(repo)@,
                    (ObjectKind::Tree, staged_tree(old(repo)@)),
                    (ObjectKind::Commit, staged_commit(old(repo)@, message@)),
                )
            },
        },
        old(repo).wf() ==> final(repo).wf(),
{
    let staging = read_staging_area(repo);
    if staging.is_empty() {
        return Ok(None);
    }
    let mut index = match read_index(repo) {
        Err(e) => { return Err(e); },
        Ok(m) => m,
    };
    let parent = match get_current_commit(repo) {
        Err(e) => { return Err(e); },
        Ok(p) => p,
    };
    let branch = match get_current_branch(repo) {
        Err(e) => { return Err(e); },
        Ok(b) => b,
    };
    apply_staging(&mut index, &staging);
    let tree = match create_tree_object(&mut repo.objects, &index) {
        Err(e) => { return Err(e); },
        Ok(t) => t,
    };
    let hash = match create_commit(
        &mut repo.objects,
        tree.as_slice(),
        Some(parent.as_slice()),
        message,
    ) {
        Err(e) => { return Err(e); },
        Ok(h) => h,
    };
    let stored = copy_range(hash.as_slice(), 0, hash.len());
    proof {
        assert(stored@ =~= hash@);
    }
    repo.refs.insert(branch, stored);
    repo.staging = None;
    repo.index = Some(render_index(&index));
    Ok(Some(hash))
}

} // verus!
