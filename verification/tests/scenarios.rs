use fit::add::add_workflow;
use fit::branch::{branch_workflow, checkout_branch, BranchCommand};
use fit::bytemap::ByteMap;
use fit::history::log_workflow;
use fit::materialize::reset_workflow;
use fit::merge::{merge_workflow, MergeOutcome};
use fit::object::read_object;
use fit::refs::{get_branch_commit, get_current_branch, get_current_commit};
use fit::repo::Repository;
use fit::snapshot::{commit_workflow, init_workflow};
use fit::stash::{pop_stashed_content, stash_content};
use fit::status::{status_workflow, ChangeKind};
use fit::commit::get_commit_tree;

fn b(s: &str) -> Vec<u8> {
    s.as_bytes().to_vec()
}

fn write_file(repo: &mut Repository, path: &str, content: &str) {
    repo.worktree.insert(b(path), b(content));
}

fn file(repo: &Repository, path: &str) -> Option<Vec<u8>> {
    repo.worktree.get(path.as_bytes()).cloned()
}

/// `init`, then `a.txt` with `hello\n` added and committed as `first`.
fn one_commit() -> (Repository, Vec<u8>) {
    let mut repo = Repository::new(ByteMap::new());
    init_workflow(&mut repo).unwrap();
    write_file(&mut repo, "a.txt", "hello\n");
    add_workflow(&mut repo, b"a.txt").unwrap();
    let hash = commit_workflow(&mut repo, b"first").unwrap().unwrap();
    (repo, hash)
}

#[test]
fn init_commit_log() {
    let (repo, first) = one_commit();
    let log = log_workflow(&repo).unwrap();
    assert_eq!(log.len(), 2);
    assert_eq!(log[0].hash, first);
    assert_eq!(log[0].message, b("first"));
    assert_eq!(log[1].message, b("Initial commit"));
    let tree = get_commit_tree(&repo.objects, &first).unwrap();
    let (kind, payload) = read_object(&repo.objects, &tree).unwrap().unwrap();
    assert_eq!(kind, b("tree"));
    assert_eq!(payload, b("100644 blob ce013625030ba8dba906f756967f9e9ca394464a a.txt\n"));
}

#[test]
fn modify_status() {
    let (mut repo, _) = one_commit();
    write_file(&mut repo, "a.txt", "hello2\n");
    let report = status_workflow(&mut repo).unwrap();
    assert_eq!(report.branch, b("master"));
    assert!(report.staged.is_empty());
    assert_eq!(report.unstaged.len(), 1);
    assert_eq!(report.unstaged[0].kind, ChangeKind::Modified);
    assert_eq!(report.unstaged[0].path, b("a.txt"));
    assert!(report.untracked.is_empty());
}

#[test]
fn reset_restores_file() {
    let (mut repo, first) = one_commit();
    write_file(&mut repo, "a.txt", "hello2\n");
    reset_workflow(&mut repo, &first).unwrap();
    assert_eq!(file(&repo, "a.txt"), Some(b("hello\n")));
    assert_eq!(repo.staging, None);
    assert_eq!(get_current_commit(&repo).unwrap(), first);
}

#[test]
fn branch_and_checkout() {
    let (mut repo, first) = one_commit();
    branch_workflow(&mut repo, BranchCommand::Create(b("feat"))).unwrap();
    assert_eq!(get_current_branch(&repo).unwrap(), b("master"));
    branch_workflow(&mut repo, BranchCommand::Checkout(b("feat"))).unwrap();
    assert_eq!(get_current_branch(&repo).unwrap(), b("feat"));
    write_file(&mut repo, "a.txt", "x\n");
    add_workflow(&mut repo, b"a.txt").unwrap();
    let second = commit_workflow(&mut repo, b"on-feat").unwrap().unwrap();
    assert_eq!(get_branch_commit(&repo, b"feat").unwrap(), second);
    assert_eq!(get_branch_commit(&repo, b"master").unwrap(), first);
    checkout_branch(&mut repo, b"master").unwrap();
    assert_eq!(file(&repo, "a.txt"), Some(b("hello\n")));
    assert_eq!(get_current_branch(&repo).unwrap(), b("master"));
}

#[test]
fn fast_forward_merge_moves_master() {
    let (mut repo, _) = one_commit();
    branch_workflow(&mut repo, BranchCommand::CheckoutNew(b("feat"))).unwrap();
    write_file(&mut repo, "a.txt", "x\n");
    add_workflow(&mut repo, b"a.txt").unwrap();
    let second = commit_workflow(&mut repo, b"on-feat").unwrap().unwrap();
    checkout_branch(&mut repo, b"master").unwrap();
    assert_eq!(file(&repo, "a.txt"), Some(b("hello\n")));
    let outcome = merge_workflow(&mut repo, b"feat").unwrap();
    assert_eq!(outcome, MergeOutcome::FastForward);
    assert_eq!(get_branch_commit(&repo, b"master").unwrap(), second);
    assert_eq!(get_current_commit(&repo).unwrap(), second);
    assert_eq!(file(&repo, "a.txt"), Some(b("x\n")));
}

#[test]
fn stash_round_trip() {
    let (mut repo, _) = one_commit();
    write_file(&mut repo, "b.txt", "b\n");
    add_workflow(&mut repo, b"b.txt").unwrap();
    let stashed = stash_content(&mut repo).unwrap();
    assert_eq!(file(&repo, "b.txt"), None);
    assert_eq!(file(&repo, "a.txt"), Some(b("hello\n")));
    let popped = pop_stashed_content(&mut repo).unwrap();
    assert_eq!(popped, stashed);
    assert_eq!(file(&repo, "b.txt"), Some(b("b\n")));
    assert_eq!(file(&repo, "a.txt"), Some(b("hello\n")));
}
