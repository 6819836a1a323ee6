//! The stash: a stack of commits that hold work set aside.
//!
//! The stash file holds one hash on each line, the latest first.

use vstd::prelude::*;
use crate::bytemap::Pairs;
use crate::bytes::{append, copy_range, is_token, skip_run, spec_is_space};
use crate::commit::{commit_text, create_commit, stash_message, stash_message_bytes};
use crate::error::FitError;
use crate::index::{read_index, spec_read_index};
use crate::materialize::{reset_workflow, spec_commit_payload, spec_reset};
use crate::object::{deflates, spec_hash, spec_put, ObjectKind};
use crate::refs::{get_current_commit, spec_current_commit};
use crate::repo::{file_view, RepoView, Repository};
use crate::text::{
    join, spec_join, spec_lines, spec_trim, split_lines, trim, trim_end, views,
};
use crate::text_laws::{
    lemma_lines_append, lemma_lines_cons, lemma_lines_terminate, lemma_token_one_line,
    lemma_trim_clean, lemma_trim_ends,
};
use crate::tree::{create_tree_object, tree_text};

verus! {

/// The stash file once `hash` is pushed: the hash, a line feed, and what the
/// file held, trimmed.
pub open spec fn spec_stash_push(stash: Option<Seq<u8>>, hash: Seq<u8>) -> Seq<u8> {
    hash + seq![10u8] + spec_trim(
        match stash {
            Some(s) => s,
            None => Seq::empty(),
        },
    )
}

/// The top of the stash and the file without it; `None` where the file is
/// absent or holds no line.
pub open spec fn spec_stash_pop(stash: Option<Seq<u8>>) -> Option<(Seq<u8>, Seq<u8>)> {
    match stash {
        None => None,
        Some(s) => {
            let lines = spec_lines(s);
            if lines.len() == 0 {
                None
            } else {
                Some((lines[0], spec_join(lines.subrange(1, lines.len() as int), seq![10u8])))
            }
        },
    }
}

/// Pushes `stash_hash` onto the stash.
pub fn write_stashing_area(repo: &mut Repository, stash_hash: &[u8])
    ensures
        final(repo)@ == (RepoView {
            stash: Some(spec_stash_push(old(repo)@.stash, stash_hash@)),
            ..old(repo)@
        }),
        old(repo).wf() ==> final(repo).wf(),
{
    let rest = match &repo.stash {
        Some(s) => trim(s.as_slice()),
        None => {
            let none: Vec<u8> = Vec::new();
            trim(none.as_slice())
        },
    };
    let mut text = copy_range(stash_hash, 0, stash_hash.len());
    text.push(10u8);
    append(&mut text, rest.as_slice());
    proof {
        assert(text@ =~= spec_stash_push(old(repo)@.stash, stash_hash@));
    }
    repo.stash = Some(text);
}

/// Pops the top of the stash and returns it; leaves the stash alone and
/// returns nothing where the stash is empty.
pub fn read_stashing_area(repo: &mut Repository) -> (r: Option<Vec<u8>>)
    ensures
        match spec_stash_pop(old(repo)@.stash) {
            Some((top, rest)) => file_view(r) == Some(top) && final(repo)@ == (RepoView {
                stash: Some(rest),
                ..old(repo)@
            }),
            None => r is None && final(repo)@ == old(repo)@,
        },
        old(repo).wf() ==> final(repo).wf(),
{
    let mut lines = match &repo.stash {
        None => { return None; },
        Some(s) => split_lines(s.as_slice()),
    };
    if lines.len() == 0 {
        return None;
    }
    let ghost all = views(lines@);
    let top = lines.remove(0);
    let sep: Vec<u8> = vec![10u8];
    proof {
        assert(views(lines@) =~= all.subrange(1, all.len() as int));
        assert(sep@ =~= seq![10u8]);
    }
    repo.stash = Some(join(&lines, sep.as_slice()));
    Some(top)
}

/// The stack that the stash file holds: its lines, top first.
pub open spec fn stack_of(stash: Option<Seq<u8>>) -> Seq<Seq<u8>> {
    match stash {
        None => Seq::empty(),
        Some(f) => spec_lines(f),
    }
}

/// Every byte string of `l` is a field.
pub open spec fn all_tokens(l: Seq<Seq<u8>>) -> bool {
    forall|i: int| 0 <= i < l.len() ==> is_token(#[trigger] l[i])
}

/// A stash file in good order: each line is a hash without white space, and
/// white space around the text holds no line.
pub open spec fn stash_ok(stash: Option<Seq<u8>>) -> bool {
    &&& all_tokens(stack_of(stash))
    &&& stash matches Some(f) ==> spec_lines(spec_trim(f)) == spec_lines(f)
}

proof fn lemma_join_ends(l: Seq<Seq<u8>>)
    requires
        all_tokens(l),
        l.len() > 0,
    ensures
        spec_join(l, seq![10u8]).len() > 0,
        !spec_is_space(spec_join(l, seq![10u8])[0]),
        !spec_is_space(spec_join(l, seq![10u8])[spec_join(l, seq![10u8]).len() - 1]),
    decreases l.len(),
{
    assert(is_token(l[0]));
    assert(is_token(l[l.len() - 1]));
    if l.len() > 1 {
        assert(all_tokens(l.drop_last())) by {
            assert forall|i: int| 0 <= i < l.drop_last().len() implies is_token(
                #[trigger] l.drop_last()[i],
            ) by {
                assert(l.drop_last()[i] == l[i]);
            }
        }
        lemma_join_ends(l.drop_last());
        let prev = spec_join(l.drop_last(), seq![10u8]);
        let j = spec_join(l, seq![10u8]);
        assert(j =~= prev + seq![10u8] + l.last());
        assert(j[0] == prev[0]);
        assert(j[j.len() - 1] == l.last()[l.last().len() - 1]);
    }
}

/// The lines of hashes joined by line feeds are the hashes, and the text
/// has no white space around it.
pub proof fn lemma_lines_of_join(l: Seq<Seq<u8>>)
    requires
        all_tokens(l),
    ensures
        spec_lines(spec_join(l, seq![10u8])) == l,
        spec_trim(spec_join(l, seq![10u8])) == spec_join(l, seq![10u8]),
{
    assert forall|i: int| 0 <= i < l.len() implies crate::round_trip::plain_line(
        #[trigger] l[i],
    ) by {
        assert(is_token(l[i]));
        lemma_token_one_line(l[i]);
    }
    crate::round_trip::lemma_lines_of_joined(l);
    if l.len() > 0 {
        lemma_join_ends(l);
    }
    lemma_trim_clean(spec_join(l, seq![10u8]));
}

/// Pushing a hash puts it on top of the stack and keeps the file in good
/// order.
pub proof fn lemma_stash_push(stash: Option<Seq<u8>>, hash: Seq<u8>)
    requires
        stash_ok(stash),
        is_token(hash),
    ensures
        stack_of(Some(spec_stash_push(stash, hash))) == seq![hash] + stack_of(stash),
        stash_ok(Some(spec_stash_push(stash, hash))),
{
    let held = match stash {
        Some(s) => s,
        None => Seq::empty(),
    };
    let rest = spec_trim(held);
    let pushed = spec_stash_push(stash, hash);
    lemma_token_one_line(hash);
    lemma_lines_cons(hash, rest);
    if stash is None {
        lemma_trim_clean(held);
        assert(spec_lines(held) =~= Seq::<Seq<u8>>::empty());
    }
    assert(spec_lines(rest) == stack_of(stash));
    let stack = seq![hash] + stack_of(stash);
    assert(all_tokens(stack)) by {
        assert forall|i: int| 0 <= i < stack.len() implies is_token(#[trigger] stack[i]) by {
            if i > 0 {
                assert(stack[i] == stack_of(stash)[i - 1]);
            }
        }
    }
    lemma_trim_ends(held);
    assert(pushed[0] == hash[0]);
    if rest.len() > 0 {
        assert(pushed[pushed.len() - 1] == rest[rest.len() - 1]);
        lemma_trim_clean(pushed);
    } else {
        assert(pushed =~= hash + seq![10u8]);
        assert(skip_run(pushed, true, 0) == 0);
        assert(pushed[hash.len() as int] == 10u8);
        assert(pushed[hash.len() - 1] == hash[hash.len() - 1]);
        assert(trim_end(pushed, pushed.len() as int) == trim_end(pushed, hash.len() as int));
        assert(trim_end(pushed, hash.len() as int) == hash.len());
        assert(spec_trim(pushed) =~= hash);
        lemma_lines_append(Seq::empty(), hash);
        assert(Seq::<u8>::empty() + hash =~= hash);
        assert(spec_lines(Seq::empty()) =~= Seq::<Seq<u8>>::empty());
        assert(spec_lines(rest) =~= Seq::<Seq<u8>>::empty());
        assert(spec_lines(hash) =~= stack);
    }
}

/// Popping takes the top of the stack, leaves the rest in order, and keeps
/// the file in good order.
pub proof fn lemma_stash_pop(stash: Option<Seq<u8>>)
    requires
        stash_ok(stash),
        stack_of(stash).len() > 0,
    ensures
        spec_stash_pop(stash) is Some,
        spec_stash_pop(stash)->Some_0.0 == stack_of(stash)[0],
        stack_of(Some(spec_stash_pop(stash)->Some_0.1)) == stack_of(stash).subrange(
            1,
            stack_of(stash).len() as int,
        ),
        stash_ok(Some(spec_stash_pop(stash)->Some_0.1)),
{
    let stack = stack_of(stash);
    let below = stack.subrange(1, stack.len() as int);
    assert(all_tokens(below)) by {
        assert forall|i: int| 0 <= i < below.len() implies is_token(#[trigger] below[i]) by {
            assert(below[i] == stack[i + 1]);
        }
    }
    lemma_lines_of_join(below);
}

/// The stash file after the hashes of `hashes` are pushed in order.
pub open spec fn pushed_all(stash: Option<Seq<u8>>, hashes: Seq<Seq<u8>>) -> Option<Seq<u8>>
    decreases hashes.len(),
{
    if hashes.len() == 0 {
        stash
    } else {
        Some(spec_stash_push(pushed_all(stash, hashes.drop_last()), hashes.last()))
    }
}

/// The stash is a stack: after any number of pushes the stack holds the
/// hashes pushed, the last one on top, above what it held before. Popping
/// therefore gives them back last first.
pub proof fn lemma_stash_lifo(stash: Option<Seq<u8>>, hashes: Seq<Seq<u8>>)
    requires
        stash_ok(stash),
        all_tokens(hashes),
    ensures
        stash_ok(pushed_all(stash, hashes)),
        stack_of(pushed_all(stash, hashes)) == hashes.reverse() + stack_of(stash),
    decreases hashes.len(),
{
    if hashes.len() == 0 {
        assert(hashes.reverse() + stack_of(stash) =~= stack_of(stash));
    } else {
        let before = hashes.drop_last();
        assert(all_tokens(before)) by {
            assert forall|i: int| 0 <= i < before.len() implies is_token(#[trigger] before[i]) by {
                assert(before[i] == hashes[i]);
            }
        }
        assert(is_token(hashes[hashes.len() - 1]));
        lemma_stash_lifo(stash, before);
        lemma_stash_push(pushed_all(stash, before), hashes.last());
        assert(seq![hashes.last()] + (before.reverse() + stack_of(stash)) =~= hashes.reverse()
            + stack_of(stash));
    }
}

/// The object store once the tree of the index and the stash commit on top
/// of the current commit are written.
pub open spec fn stash_objects(v: RepoView) -> Pairs {
    let index = spec_read_index(v.index)->Ok_0;
    let parent = spec_current_commit(v)->Ok_0;
    spec_put(
        spec_put(v.objects, ObjectKind::Tree, tree_text(index)),
        ObjectKind::Commit,
        commit_text(spec_hash(ObjectKind::Tree, tree_text(index)), Some(parent), stash_message()),
    )
}

/// The hash of the stash commit.
pub open spec fn stash_hash(v: RepoView) -> Seq<u8> {
    let index = spec_read_index(v.index)->Ok_0;
    let parent = spec_current_commit(v)->Ok_0;
    spec_hash(
        ObjectKind::Commit,
        commit_text(spec_hash(ObjectKind::Tree, tree_text(index)), Some(parent), stash_message()),
    )
}

/// What `stash` does: the index is written as a tree, a commit of it with
/// the message `stash` on top of the current commit is written and pushed
/// onto the stash, and the repository is reset to the current commit.
/// Fails where the index cannot be read, `HEAD` does not resolve, or the
/// reset fails.
pub open spec fn spec_stash(v: RepoView) -> Result<RepoView, FitError> {
    match spec_read_index(v.index) {
        Err(e) => Err(e),
        Ok(index) => match spec_current_commit(v) {
            Err(e) => Err(e),
            Ok(parent) => spec_reset(
                RepoView {
                    objects: stash_objects(v),
                    stash: Some(spec_stash_push(v.stash, stash_hash(v))),
                    ..v
                },
                parent,
            ),
        },
    }
}

/// What a failed `stash` leaves: nothing has changed, except that the two
/// new objects are in the store where only the reset failed.
pub open spec fn spec_stash_failed(v: RepoView) -> RepoView {
    if spec_read_index(v.index) is Err || spec_current_commit(v) is Err {
        v
    } else {
        RepoView { objects: stash_objects(v), ..v }
    }
}

/// The payload of the tree that `stash` writes.
pub open spec fn stash_tree(v: RepoView) -> Seq<u8> {
    tree_text(spec_read_index(v.index)->Ok_0)
}

/// The payload of the commit that `stash` writes.
pub open spec fn stash_commit(v: RepoView) -> Seq<u8> {
    commit_text(
        spec_hash(ObjectKind::Tree, stash_tree(v)),
        Some(spec_current_commit(v)->Ok_0),
        stash_message(),
    )
}

/// `stash` gets as far as writing its objects, and both compress.
pub open spec fn stash_writes(v: RepoView) -> bool {
    &&& deflates(ObjectKind::Tree, stash_tree(v))
    &&& deflates(ObjectKind::Commit, stash_commit(v))
}

/// `stash` gets as far as writing its objects, and one fails to compress:
/// the result is `Io`, and at most the tree was written.
pub open spec fn stash_compression_failed(
    before: RepoView,
    after: RepoView,
    r: Result<Vec<u8>, FitError>,
) -> bool {
    &&& r == Err::<Vec<u8>, FitError>(FitError::Io)
    &&& crate::snapshot::writes_failed(
        before,
        after,
        (ObjectKind::Tree, stash_tree(before)),
        (ObjectKind::Commit, stash_commit(before)),
    )
}

/// `stash` fails before it writes an object, or writes both.
pub open spec fn stash_decided(v: RepoView) -> bool {
    spec_read_index(v.index) is Err || spec_current_commit(v) is Err || stash_writes(v)
}

/// Sets the content of the index aside on the stash and returns the hash of
/// the stash commit.
///
/// Where the index cannot be read or `HEAD` does not resolve nothing
/// changes. Where the compression of the tree or of the stash commit fails
/// the result is `Io`, and at most the tree was written. Otherwise the
/// outcome is that of `spec_stash`; where the reset fails, the two objects
/// stay in the store and nothing else has changed.
pub fn stash_content(repo: &mut Repository) -> (r: Result<Vec<u8>, FitError>)
    ensures
        if stash_decided(old(repo)@) {
            match spec_stash(old(repo)@) {
                Err(e) => r == Err::<Vec<u8>, FitError>(e) && final(repo)@ == spec_stash_failed(
                    old(repo)@,
                ),
                Ok(v) => r matches Ok(h) && h@ == stash_hash(old(repo)@) && final(repo)@ == v,
            }
        } else {
            stash_compression_failed(old(repo)@, final(repo)@, r)
        },
        r matches Ok(h) ==> is_token(h@) && spec_commit_payload(final(repo)@.objects, h@) is Ok,
        old(repo).wf() ==> final(repo).wf(),
{
    let index = match read_index(repo) {
        Err(e) => { return Err(e); },
        Ok(m) => m,
    };
    let parent = match get_current_commit(repo) {
        Err(e) => { return Err(e); },
        Ok(p) => p,
    };
    let tree = match create_tree_object(&mut repo.objects, &index) {
        Err(e) => { return Err(e); },
        Ok(t) => t,
    };
    let message = stash_message_bytes();
    let hash = match create_commit(
        &mut repo.objects,
        tree.as_slice(),
        Some(parent.as_slice()),
        message.as_slice(),
    ) {
        Err(e) => { return Err(e); },
        Ok(h) => h,
    };
    let mut saved: Option<Vec<u8>> = None;
    std::mem::swap(&mut repo.stash, &mut saved);
    proof {
        assert(file_view(saved) == old(repo)@.stash);
    }
    let rest = match &saved {
        Some(s) => trim(s.as_slice()),
        None => {
            let none: Vec<u8> = Vec::new();
            trim(none.as_slice())
        },
    };
    let mut text = copy_range(hash.as_slice(), 0, hash.len());
    text.push(10u8);
    append(&mut text, rest.as_slice());
    proof {
        assert(text@ =~= spec_stash_push(old(repo)@.stash, hash@));
    }
    repo.stash = Some(text);
    match reset_workflow(repo, parent.as_slice()) {
        Ok(_) => Ok(hash),
        Err(e) => {
            repo.stash = saved;
            Err(e)
        },
    }
}

/// What `stash pop` does: the top of the stash leaves the stash file, and
/// the repository is reset to it. `NotFound` where the stash is empty; else
/// as the reset fails.
pub open spec fn spec_pop(v: RepoView) -> Result<RepoView, FitError> {
    match spec_stash_pop(v.stash) {
        None => Err(FitError::NotFound),
        Some((top, rest)) => spec_reset(RepoView { stash: Some(rest), ..v }, top),
    }
}

/// The hash that `stash pop` restores.
pub open spec fn spec_pop_hash(v: RepoView) -> Seq<u8> {
    spec_stash_pop(v.stash)->Some_0.0
}

/// Restores the work that was set aside last and returns the hash of its
/// stash commit. On failure nothing changes.
pub fn pop_stashed_content(repo: &mut Repository) -> (r: Result<Vec<u8>, FitError>)
    ensures
        match spec_pop(old(repo)@) {
            Ok(v) => (r matches Ok(h) && h@ == spec_pop_hash(old(repo)@)) && final(repo)@ == v,
            Err(e) => r == Err::<Vec<u8>, FitError>(e) && final(repo)@ == old(repo)@,
        },
        old(repo).wf() ==> final(repo).wf(),
{
    let mut lines = match &repo.stash {
        None => { return Err(FitError::NotFound); },
        Some(s) => split_lines(s.as_slice()),
    };
    if lines.len() == 0 {
        return Err(FitError::NotFound);
    }
    let ghost all = views(lines@);
    let top = lines.remove(0);
    let sep: Vec<u8> = vec![10u8];
    proof {
        assert(views(lines@) =~= all.subrange(1, all.len() as int));
        assert(sep@ =~= seq![10u8]);
    }
    let mut saved = Some(join(&lines, sep.as_slice()));
    std::mem::swap(&mut repo.stash, &mut saved);
    match reset_workflow(repo, top.as_slice()) {
        Ok(_) => Ok(top),
        Err(e) => {
            repo.stash = saved;
            Err(e)
        },
    }
}

/// What the `stash` command leaves and how it ends: `stash pop` where `pop`
/// is set, `stash` otherwise.
pub open spec fn spec_stash_command(v: RepoView, pop: bool) -> Result<RepoView, FitError> {
    if pop {
        spec_pop(v)
    } else {
        spec_stash(v)
    }
}

/// Runs the `stash` command and returns the hash of the stash commit that
/// was written or restored.
pub fn stash_workflow(repo: &mut Repository, pop: bool) -> (r: Result<Vec<u8>, FitError>)
    ensures
        if pop || stash_decided(old(repo)@) {
            match spec_stash_command(old(repo)@, pop) {
                Err(e) => r == Err::<Vec<u8>, FitError>(e) && final(repo)@ == (if pop {
                    old(repo)@
                } else {
                    spec_stash_failed(old(repo)@)
                }),
                Ok(v) => r matches Ok(h) && final(repo)@ == v && h@ == (if pop {
                    spec_pop_hash(old(repo)@)
                } else {
                    stash_hash(old(repo)@)
                }),
            }
        } else {
            stash_compression_failed(old(repo)@, final(repo)@, r)
        },
        old(repo).wf() ==> final(repo).wf(),
{
    if pop {
        pop_stashed_content(repo)
    } else {
        stash_content(repo)
    }
}

} // verus!
