//! Switching branches, and the `branch` command.

use vstd::prelude::*;
use crate::error::FitError;
use crate::materialize::{reset_workflow, spec_reset};
use crate::refs::{
    branch_names, create_branch, delete_branch, get_branch_commit, head_text, list_branches,
    render_head, spec_branch_commit, spec_create_branch, spec_delete_branch,
};
use crate::repo::{RepoView, Repository};
use crate::text::views;

verus! {

/// The repository once branch `name` is checked out: `HEAD` names the
/// branch, and the repository is reset to the commit of the branch.
/// `NotFound` where there is no such branch; else as the reset fails.
pub open spec fn spec_checkout(v: RepoView, name: Seq<u8>) -> Result<RepoView, FitError> {
    match spec_branch_commit(v.refs, name) {
        Err(e) => Err(e),
        Ok(c) => spec_reset(RepoView { head: Some(head_text(name)), ..v }, c),
    }
}

/// Checks out branch `name`. On failure nothing changes.
pub fn checkout_branch(repo: &mut Repository, name: &[u8]) -> (r: Result<(), FitError>)
    ensures
        match spec_checkout(old(repo)@, name@) {
            Ok(v) => r is Ok && final(repo)@ == v,
            Err(e) => r == Err::<(), FitError>(e) && final(repo)@ == old(repo)@,
        },
        old(repo).wf() ==> final(repo).wf(),
{
    let commit = match get_branch_commit(repo, name) {
        Err(e) => { return Err(e); },
        Ok(c) => c,
    };
    let mut head = Some(render_head(name));
    std::mem::swap(&mut repo.head, &mut head);
    match reset_workflow(repo, commit.as_slice()) {
        Ok(_) => Ok(()),
        Err(e) => {
            repo.head = head;
            Err(e)
        },
    }
}

/// What creating and checking out branch `name` leaves, and how it ends: a
/// failed creation changes nothing; a failed checkout leaves the branch
/// created.
pub open spec fn spec_checkout_new(v: RepoView, name: Seq<u8>) -> (RepoView, Option<FitError>) {
    match spec_create_branch(v, name) {
        Err(e) => (v, Some(e)),
        Ok(created) => match spec_checkout(created, name) {
            Err(e) => (created, Some(e)),
            Ok(done) => (done, None),
        },
    }
}

/// The failure that a result carries.
pub open spec fn failure_of<T>(r: Result<T, FitError>) -> Option<FitError> {
    match r {
        Ok(_) => None,
        Err(e) => Some(e),
    }
}

/// Creates branch `name` at the current commit and checks it out.
pub fn checkout_new_branch(repo: &mut Repository, name: &[u8]) -> (r: Result<(), FitError>)
    ensures
        (final(repo)@, failure_of(r)) == spec_checkout_new(old(repo)@, name@),
        old(repo).wf() ==> final(repo).wf(),
{
    match create_branch(repo, name) {
        Err(e) => { return Err(e); },
        Ok(_) => {},
    }
    checkout_branch(repo, name)
}

/// What the `branch` command is asked to do.
pub enum BranchCommand {
    List,
    Create(Vec<u8>),
    Delete(Vec<u8>),
    Checkout(Vec<u8>),
    CheckoutNew(Vec<u8>),
}

/// What the `branch` command leaves, how it ends, and the names it lists:
/// those of all branches for `List`, none for the others.
pub open spec fn spec_branch(v: RepoView, command: BranchCommand) -> (
    RepoView,
    Option<FitError>,
    Seq<Seq<u8>>,
) {
    match command {
        BranchCommand::List => (v, None, branch_names(v.refs)),
        BranchCommand::Create(name) => match spec_create_branch(v, name@) {
            Ok(done) => (done, None, Seq::empty()),
            Err(e) => (v, Some(e), Seq::empty()),
        },
        BranchCommand::Delete(name) => match spec_delete_branch(v, name@) {
            Ok(done) => (done, None, Seq::empty()),
            Err(e) => (v, Some(e), Seq::empty()),
        },
        BranchCommand::Checkout(name) => match spec_checkout(v, name@) {
            Ok(done) => (done, None, Seq::empty()),
            Err(e) => (v, Some(e), Seq::empty()),
        },
        BranchCommand::CheckoutNew(name) => {
            let (done, failure) = spec_checkout_new(v, name@);
            (done, failure, Seq::empty())
        },
    }
}

/// Runs the `branch` command and returns the names to list.
pub fn branch_workflow(repo: &mut Repository, command: BranchCommand) -> (r: Result<
    Vec<Vec<u8>>,
    FitError,
>)
    ensures
        ({
            let (done, failure, names) = spec_branch(old(repo)@, command);
            &&& final(repo)@ == done
            &&& failure_of(r) == failure
            &&& r matches Ok(listed) ==> views(listed@) == names
        }),
        old(repo).wf() ==> final(repo).wf(),
{
    let none: Vec<Vec<u8>> = Vec::new();
    proof {
        assert(views(none@) =~= Seq::<Seq<u8>>::empty());
    }
    match command {
        BranchCommand::List => Ok(list_branches(repo)),
        BranchCommand::Create(name) => match create_branch(repo, name.as_slice()) {
            Ok(_) => Ok(none),
            Err(e) => Err(e),
        },
        BranchCommand::Delete(name) => match delete_branch(repo, name.as_slice()) {
            Ok(_) => Ok(none),
            Err(e) => Err(e),
        },
        BranchCommand::Checkout(name) => match checkout_branch(repo, name.as_slice()) {
            Ok(_) => Ok(none),
            Err(e) => Err(e),
        },
        BranchCommand::CheckoutNew(name) => match checkout_new_branch(repo, name.as_slice()) {
            Ok(_) => Ok(none),
            Err(e) => Err(e),
        },
    }
}

} // verus!
