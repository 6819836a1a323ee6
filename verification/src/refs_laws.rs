//! Branch files name commits: what keeps that true.

use vstd::prelude::*;
use crate::add::{is_under, spec_add_dir, spec_add_workflow, AddState};
use crate::branch::spec_checkout;
use crate::bytemap::{
    has_key, lemma_insert_lookup, lemma_position, lookup, position, spec_insert, spec_remove, Pairs,
};
use crate::commit::commit_text;
use crate::error::FitError;
use crate::index::spec_read_index;
use crate::materialize::{spec_commit_payload, spec_reset};
use crate::bytes::is_token;
use crate::merge::{lemma_head_branch, spec_merge};
use crate::stash::{
    spec_pop, spec_stash, spec_stash_pop, spec_stash_push, stack_of, stash_hash, stash_objects,
    stash_ok,
};
use crate::object::{
    commit_word, lemma_put_keeps_others, spec_get, spec_hash, spec_put, ObjectKind,
};
use crate::refs::{
    spec_branch_commit, spec_create_branch, spec_current_branch, spec_current_commit,
    spec_delete_branch,
};
use crate::repo::RepoView;
use crate::snapshot::{applied, initial_commit_reads_back, spec_commit, spec_init};
use crate::status::status_objects;
use crate::staging_file::staging_of;
use crate::text::spec_trim;
use crate::text_laws::lemma_trim_idempotent;
use crate::tree::tree_text;

verus! {

/// The content of a branch file resolves to a commit of the store.
pub open spec fn names_commit(objects: Pairs, content: Seq<u8>) -> bool {
    spec_commit_payload(objects, spec_trim(content)) is Ok
}

/// Every branch file resolves to a commit.
pub open spec fn refs_valid(v: RepoView) -> bool {
    forall|i: int| 0 <= i < v.refs.len() ==> names_commit(v.objects, (#[trigger] v.refs[i]).1)
}

/// No branch file holds `hash`.
pub open spec fn unnamed(refs: Pairs, hash: Seq<u8>) -> bool {
    forall|i: int| 0 <= i < refs.len() ==> spec_trim((#[trigger] refs[i]).1) != hash
}

/// Writing a branch file that names a commit keeps every branch file naming
/// a commit.
pub proof fn lemma_refs_after_insert(v: RepoView, name: Seq<u8>, content: Seq<u8>)
    requires
        refs_valid(v),
        names_commit(v.objects, content),
    ensures
        refs_valid(RepoView { refs: spec_insert(v.refs, name, content), ..v }),
{
    let refs = spec_insert(v.refs, name, content);
    lemma_position(v.refs, name);
    assert forall|i: int| 0 <= i < refs.len() implies names_commit(
        v.objects,
        (#[trigger] refs[i]).1,
    ) by {
        if i < v.refs.len() && i != position(v.refs, name) {
            assert(refs[i] == v.refs[i]);
        }
    }
}

/// Removing a branch file keeps every branch file naming a commit.
pub proof fn lemma_refs_after_remove(v: RepoView, name: Seq<u8>)
    requires
        refs_valid(v),
    ensures
        refs_valid(RepoView { refs: spec_remove(v.refs, name), ..v }),
{
    let refs = spec_remove(v.refs, name);
    lemma_position(v.refs, name);
    let p = position(v.refs, name);
    assert forall|i: int| 0 <= i < refs.len() implies names_commit(
        v.objects,
        (#[trigger] refs[i]).1,
    ) by {
        if has_key(v.refs, name) {
            let a = if i < p {
                i
            } else {
                i + 1
            };
            assert(refs[i] == v.refs[a]);
        }
    }
}

/// Writing an object keeps every branch file naming a commit, as long as no
/// branch file holds the hash of the object, or the object reads back as a
/// commit.
pub proof fn lemma_refs_after_put(v: RepoView, kind: ObjectKind, payload: Seq<u8>)
    requires
        refs_valid(v),
        unnamed(v.refs, spec_hash(kind, payload)) || spec_commit_payload(
            spec_put(v.objects, kind, payload),
            spec_hash(kind, payload),
        ) is Ok,
    ensures
        refs_valid(RepoView { objects: spec_put(v.objects, kind, payload), ..v }),
{
    let objects = spec_put(v.objects, kind, payload);
    assert forall|i: int| 0 <= i < v.refs.len() implies names_commit(
        objects,
        (#[trigger] v.refs[i]).1,
    ) by {
        let h = spec_trim(v.refs[i].1);
        assert(names_commit(v.objects, v.refs[i].1));
        if h != spec_hash(kind, payload) {
            lemma_put_keeps_others(v.objects, kind, payload, h);
        }
    }
}

/// A reset keeps every branch file naming a commit, where the hash it is
/// given has no white space around it.
pub proof fn lemma_refs_after_reset(v: RepoView, hash: Seq<u8>)
    requires
        refs_valid(v),
        spec_reset(v, hash) is Ok,
        spec_trim(hash) == hash,
    ensures
        refs_valid(spec_reset(v, hash)->Ok_0),
{
    let done = spec_reset(v, hash)->Ok_0;
    let branch = spec_current_branch(v.head)->Ok_0;
    lemma_refs_after_insert(v, branch, hash);
    let moved = RepoView { refs: spec_insert(v.refs, branch, hash), ..v };
    assert(done.refs == moved.refs);
    assert(done.objects == moved.objects);
    assert forall|i: int| 0 <= i < done.refs.len() implies names_commit(
        done.objects,
        (#[trigger] done.refs[i]).1,
    ) by {
        assert(names_commit(moved.objects, moved.refs[i].1));
    }
}

/// Creating a branch keeps every branch file naming a commit.
pub proof fn lemma_refs_after_create(v: RepoView, name: Seq<u8>)
    requires
        refs_valid(v),
        spec_create_branch(v, name) is Ok,
    ensures
        refs_valid(spec_create_branch(v, name)->Ok_0),
{
    lemma_head_branch(v);
    let branch = spec_current_branch(v.head)->Ok_0;
    lemma_position(v.refs, branch);
    let content = v.refs[position(v.refs, branch)].1;
    assert(names_commit(v.objects, content));
    lemma_trim_idempotent(content);
    lemma_refs_after_insert(v, name, spec_current_commit(v)->Ok_0);
}

/// Deleting a branch keeps every branch file naming a commit.
pub proof fn lemma_refs_after_delete(v: RepoView, name: Seq<u8>)
    requires
        refs_valid(v),
        spec_delete_branch(v, name) is Ok,
    ensures
        refs_valid(spec_delete_branch(v, name)->Ok_0),
{
    lemma_refs_after_remove(v, name);
}

/// Checking out a branch keeps every branch file naming a commit.
pub proof fn lemma_refs_after_checkout(v: RepoView, name: Seq<u8>)
    requires
        refs_valid(v),
        spec_checkout(v, name) is Ok,
    ensures
        refs_valid(spec_checkout(v, name)->Ok_0),
{
    let content = lookup(v.refs, name)->Some_0;
    lemma_trim_idempotent(content);
    let moved = RepoView { head: Some(crate::refs::head_text(name)), ..v };
    assert(refs_valid(moved));
    lemma_refs_after_reset(moved, spec_trim(content));
}

/// Creating and checking out a branch keeps every branch file naming a
/// commit, however it ends.
pub proof fn lemma_refs_after_checkout_new(v: RepoView, name: Seq<u8>)
    requires
        refs_valid(v),
    ensures
        refs_valid(crate::branch::spec_checkout_new(v, name).0),
{
    if spec_create_branch(v, name) is Ok {
        lemma_refs_after_create(v, name);
        let created = spec_create_branch(v, name)->Ok_0;
        if spec_checkout(created, name) is Ok {
            lemma_refs_after_checkout(created, name);
        }
    }
}

/// A commit keeps every branch file naming a commit, where the new commit
/// reads back from the store under a hash without white space, and no branch
/// file holds the hash of the new tree.
pub proof fn lemma_refs_after_commit(v: RepoView, message: Seq<u8>)
    requires
        refs_valid(v),
        spec_commit(v, message) is Ok,
        spec_commit(v, message)->Ok_0 is Some,
        ({
            let (done, hash) = spec_commit(v, message)->Ok_0->Some_0;
            &&& spec_trim(hash) == hash
            &&& spec_commit_payload(done.objects, hash) is Ok
        }),
        unnamed(
            v.refs,
            spec_hash(
                ObjectKind::Tree,
                tree_text(applied(spec_read_index(v.index)->Ok_0, staging_of(v.staging))),
            ),
        ),
    ensures
        refs_valid(spec_commit(v, message)->Ok_0->Some_0.0),
{
    let (done, hash) = spec_commit(v, message)->Ok_0->Some_0;
    let index = spec_read_index(v.index)->Ok_0;
    let idx = applied(index, staging_of(v.staging));
    let parent = spec_current_commit(v)->Ok_0;
    let branch = spec_current_branch(v.head)->Ok_0;
    let tree = spec_hash(ObjectKind::Tree, tree_text(idx));
    let text = commit_text(tree, Some(parent), message);
    lemma_refs_after_put(v, ObjectKind::Tree, tree_text(idx));
    let with_tree = RepoView { objects: spec_put(v.objects, ObjectKind::Tree, tree_text(idx)), ..v };
    lemma_refs_after_put(with_tree, ObjectKind::Commit, text);
    let with_commit = RepoView {
        objects: spec_put(with_tree.objects, ObjectKind::Commit, text),
        ..with_tree
    };
    lemma_refs_after_insert(with_commit, branch, hash);
    let expected = RepoView { refs: spec_insert(v.refs, branch, hash), ..with_commit };
    assert(forall|i: int|
        0 <= i < done.refs.len() ==> names_commit(done.objects, (#[trigger] done.refs[i]).1)) by {
        assert(done.refs == expected.refs);
        assert(done.objects == expected.objects);
    }
}

/// A merge keeps every branch file naming a commit.
pub proof fn lemma_refs_after_merge(v: RepoView, branch: Seq<u8>)
    requires
        refs_valid(v),
        spec_merge(v, branch) is Ok,
    ensures
        refs_valid(spec_merge(v, branch)->Ok_0.0),
{
    let done = spec_merge(v, branch)->Ok_0.0;
    if done != v {
        let content = lookup(v.refs, branch)->Some_0;
        lemma_trim_idempotent(content);
        lemma_refs_after_reset(v, spec_trim(content));
    }
}

/// `stash pop` keeps every branch file naming a commit, where the stash
/// file is in good order.
pub proof fn lemma_refs_after_pop(v: RepoView)
    requires
        refs_valid(v),
        stash_ok(v.stash),
        spec_pop(v) is Ok,
    ensures
        refs_valid(spec_pop(v)->Ok_0),
{
    let (top, rest) = spec_stash_pop(v.stash)->Some_0;
    assert(is_token(stack_of(v.stash)[0]));
    crate::text_laws::lemma_trim_token(top);
    let popped = RepoView { stash: Some(rest), ..v };
    assert(refs_valid(popped));
    lemma_refs_after_reset(popped, top);
}

/// `init` leaves every branch file naming a commit, where the first commit
/// reads back from the store and no branch file held the hash of the empty
/// tree.
pub proof fn lemma_refs_after_init(v: RepoView)
    requires
        refs_valid(v),
        spec_init(v) is Ok,
        initial_commit_reads_back(spec_init(v)->Ok_0),
        unnamed(v.refs, spec_hash(ObjectKind::Tree, Seq::empty())),
    ensures
        refs_valid(spec_init(v)->Ok_0),
{
    let done = spec_init(v)->Ok_0;
    let tree = spec_hash(ObjectKind::Tree, Seq::empty());
    let text = commit_text(tree, None, crate::commit::initial_message());
    let hash = spec_hash(ObjectKind::Commit, text);
    lemma_refs_after_put(v, ObjectKind::Tree, Seq::empty());
    let with_tree = RepoView { objects: spec_put(v.objects, ObjectKind::Tree, Seq::empty()), ..v };
    lemma_refs_after_put(with_tree, ObjectKind::Commit, text);
    let with_commit = RepoView {
        objects: spec_put(with_tree.objects, ObjectKind::Commit, text),
        ..with_tree
    };
    crate::text_laws::lemma_trim_token(hash);
    lemma_refs_after_insert(with_commit, crate::refs::master(), hash);
    let expected = RepoView {
        refs: spec_insert(v.refs, crate::refs::master(), hash),
        ..with_commit
    };
    assert forall|i: int| 0 <= i < done.refs.len() implies names_commit(
        done.objects,
        (#[trigger] done.refs[i]).1,
    ) by {
        assert(done.refs == expected.refs);
        assert(done.objects == expected.objects);
        assert(names_commit(expected.objects, expected.refs[i].1));
    }
}

/// `stash` leaves every branch file naming a commit, where no branch file
/// held the hash of the new tree, and none that of the stash commit unless
/// it reads back as a commit.
pub proof fn lemma_refs_after_stash(v: RepoView)
    requires
        refs_valid(v),
        spec_stash(v) is Ok,
        unnamed(
            v.refs,
            spec_hash(ObjectKind::Tree, tree_text(spec_read_index(v.index)->Ok_0)),
        ),
        unnamed(v.refs, stash_hash(v)) || spec_commit_payload(stash_objects(v), stash_hash(v))
            is Ok,
    ensures
        refs_valid(spec_stash(v)->Ok_0),
{
    let index = spec_read_index(v.index)->Ok_0;
    let parent = spec_current_commit(v)->Ok_0;
    let tree = spec_hash(ObjectKind::Tree, tree_text(index));
    let text = commit_text(tree, Some(parent), crate::commit::stash_message());
    lemma_refs_after_put(v, ObjectKind::Tree, tree_text(index));
    let with_tree = RepoView { objects: spec_put(v.objects, ObjectKind::Tree, tree_text(index)), ..v };
    lemma_refs_after_put(with_tree, ObjectKind::Commit, text);
    let pushed = RepoView {
        objects: stash_objects(v),
        stash: Some(spec_stash_push(v.stash, stash_hash(v))),
        ..v
    };
    assert forall|i: int| 0 <= i < pushed.refs.len() implies names_commit(
        pushed.objects,
        (#[trigger] pushed.refs[i]).1,
    ) by {
        let with_commit = RepoView {
            objects: spec_put(with_tree.objects, ObjectKind::Commit, text),
            ..with_tree
        };
        assert(names_commit(with_commit.objects, with_commit.refs[i].1));
    }
    lemma_head_branch(v);
    let branch = spec_current_branch(v.head)->Ok_0;
    lemma_trim_idempotent(lookup(v.refs, branch)->Some_0);
    lemma_refs_after_reset(pushed, parent);
}

/// No branch file holds the hash of a blob.
pub open spec fn no_blob_named(refs: Pairs) -> bool {
    forall|content: Seq<u8>| unnamed(refs, #[trigger] spec_hash(ObjectKind::Blob, content))
}

proof fn lemma_refs_after_add_dir(v: RepoView, s: AddState, dir: Seq<u8>, n: int)
    requires
        refs_valid(RepoView { objects: s.objects, ..v }),
        no_blob_named(v.refs),
    ensures
        refs_valid(RepoView { objects: spec_add_dir(s, v.worktree, dir, n).objects, ..v }),
    decreases n,
{
    if n > 0 {
        lemma_refs_after_add_dir(v, s, dir, n - 1);
        let before = spec_add_dir(s, v.worktree, dir, n - 1);
        if is_under(dir, v.worktree[n - 1].0) {
            assert(unnamed(v.refs, spec_hash(ObjectKind::Blob, v.worktree[n - 1].1)));
            lemma_refs_after_put(
                RepoView { objects: before.objects, ..v },
                ObjectKind::Blob,
                v.worktree[n - 1].1,
            );
        }
    }
}

/// `add` leaves every branch file naming a commit, where no branch file
/// holds the hash of a blob.
pub proof fn lemma_refs_after_add(v: RepoView, path: Seq<u8>)
    requires
        refs_valid(v),
        no_blob_named(v.refs),
        spec_add_workflow(v, path) is Ok,
    ensures
        refs_valid(spec_add_workflow(v, path)->Ok_0),
{
    let done = spec_add_workflow(v, path)->Ok_0;
    let index = spec_read_index(v.index)->Ok_0;
    let s = AddState { objects: v.objects, staging: staging_of(v.staging), index: index };
    let expected = match lookup(v.worktree, path) {
        Some(content) => {
            assert(unnamed(v.refs, spec_hash(ObjectKind::Blob, content)));
            lemma_refs_after_put(v, ObjectKind::Blob, content);
            RepoView { objects: spec_put(v.objects, ObjectKind::Blob, content), ..v }
        },
        None => {
            assert(refs_valid(RepoView { objects: s.objects, ..v }));
            lemma_refs_after_add_dir(v, s, path, v.worktree.len() as int);
            RepoView {
                objects: spec_add_dir(s, v.worktree, path, v.worktree.len() as int).objects,
                ..v
            }
        },
    };
    assert forall|i: int| 0 <= i < done.refs.len() implies names_commit(
        done.objects,
        (#[trigger] done.refs[i]).1,
    ) by {
        assert(done.refs == expected.refs);
        assert(done.objects == expected.objects);
        assert(names_commit(expected.objects, expected.refs[i].1));
    }
}

/// `status` leaves every branch file naming a commit, where no branch file
/// holds the hash of a blob.
pub proof fn lemma_refs_after_status(v: RepoView, n: int)
    requires
        refs_valid(v),
        no_blob_named(v.refs),
    ensures
        refs_valid(RepoView { objects: status_objects(v, n), ..v }),
    decreases n,
{
    if n > 0 {
        lemma_refs_after_status(v, n - 1);
        let index = spec_read_index(v.index)->Ok_0;
        let s = staging_of(v.staging);
        let before = status_objects(v, n - 1);
        if !crate::staging::staged(s, index[n - 1].0) {
            match lookup(v.worktree, index[n - 1].0) {
                Some(content) => {
                    assert(unnamed(v.refs, spec_hash(ObjectKind::Blob, content)));
                    lemma_refs_after_put(
                        RepoView { objects: before, ..v },
                        ObjectKind::Blob,
                        content,
                    );
                },
                None => {},
            }
        }
    } else {
        assert(RepoView { objects: status_objects(v, n), ..v } == v);
    }
}

} // verus!
