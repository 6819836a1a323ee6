use fit::add::add_workflow;
use fit::branch::{branch_workflow, checkout_branch, checkout_new_branch, BranchCommand};
use fit::bytemap::ByteMap;
use fit::commit::{
    create_initial_commit, get_commit_tree, get_parent_commit, render_commit, split_commit,
};
use fit::error::FitError;
use fit::history::{find_merge_base, get_commit_history, log_workflow};
use fit::materialize::reset_workflow;
use fit::merge::{fast_forward_merge, merge_workflow, MergeOutcome};
use fit::object::{read_object, write_object, ObjectKind};
use fit::refs::{
    create_branch, delete_branch, get_branch_commit, get_current_branch, get_current_commit,
    list_branches, render_head, update_current_branch,
};
use fit::repo::Repository;
use fit::snapshot::{commit_workflow, init_workflow};

fn b(s: &str) -> Vec<u8> {
    s.as_bytes().to_vec()
}

fn fresh() -> Repository {
    let mut repo = Repository::new(ByteMap::new());
    init_workflow(&mut repo).unwrap();
    repo
}

fn commit_file(repo: &mut Repository, path: &str, content: &str, message: &str) -> Vec<u8> {
    repo.worktree.insert(b(path), b(content));
    add_workflow(repo, path.as_bytes()).unwrap();
    commit_workflow(repo, message.as_bytes()).unwrap().unwrap()
}

#[test]
fn init_creates_the_skeleton() {
    let repo = fresh();
    assert!(repo.exists);
    assert_eq!(repo.head, Some(b("ref: refs/heads/master\n")));
    assert_eq!(repo.index, Some(b("")));
    assert_eq!(repo.staging, None);
    assert_eq!(repo.stash, None);
    assert_eq!(repo.objects.len(), 2);
    let initial = get_current_commit(&repo).unwrap();
    assert_eq!(
        read_object(&repo.objects, &initial).unwrap(),
        Some((b("commit"), b("tree 4b825dc642cb6eb9a060e54bf8d69288fbee4904\n\nInitial commit")))
    );
    assert_eq!(list_branches(&repo), vec![b("master")]);
}

#[test]
fn init_twice_fails() {
    let mut repo = fresh();
    assert_eq!(init_workflow(&mut repo), Err(FitError::AlreadyExists));
}

#[test]
fn initial_commit_has_no_parent() {
    let mut objects = ByteMap::new();
    let hash = create_initial_commit(&mut objects, b"4b825dc642cb6eb9a060e54bf8d69288fbee4904").unwrap();
    let (_, payload) = read_object(&objects, &hash).unwrap().unwrap();
    assert_eq!(payload, b("tree 4b825dc642cb6eb9a060e54bf8d69288fbee4904\n\nInitial commit"));
    let (info, _) = split_commit(&payload).unwrap();
    assert_eq!(get_parent_commit(&info), b(""));
}

#[test]
fn commit_payload_is_byte_exact() {
    assert_eq!(render_commit(b"T", Some(b"P"), b"msg\n\n"), b("tree T\nparent P\n\nmsg\n\n"));
    assert_eq!(render_commit(b"T", None, b""), b("tree T\n\n"));
}

#[test]
fn commit_parts() {
    assert_eq!(
        split_commit(b"tree T\nparent P\n\nline one\n\nline two"),
        Some((b("tree T\nparent P"), b("line one\n\nline two")))
    );
    assert_eq!(split_commit(b"tree T\n\n"), Some((b("tree T"), b(""))));
    assert_eq!(split_commit(b"tree T\nno blank line"), None);
    assert_eq!(split_commit(b""), None);
}

#[test]
fn parent_is_read_from_the_header() {
    assert_eq!(get_parent_commit(b"tree T\nparent abc"), b("abc"));
    assert_eq!(get_parent_commit(b"tree T\nparent abc\r\n"), b("abc"));
    assert_eq!(get_parent_commit(b"parent first\nparent second"), b("first"));
    assert_eq!(get_parent_commit(b"tree T"), b(""));
    assert_eq!(get_parent_commit(b"tree T\n parent abc"), b(""));
    assert_eq!(get_parent_commit(b"parent "), b(""));
    assert_eq!(get_parent_commit(b""), b(""));
}

#[test]
fn commit_tree_is_second_field_of_first_line() {
    let mut objects = ByteMap::new();
    let c = write_object(&mut objects, b"tree abc\nparent def\n\nm", ObjectKind::Commit).unwrap();
    assert_eq!(get_commit_tree(&objects, &c).unwrap(), b("abc"));
    let bad = write_object(&mut objects, b"tree\n\nm", ObjectKind::Commit).unwrap();
    assert_eq!(get_commit_tree(&objects, &bad), Err(FitError::InvalidData));
    let empty = write_object(&mut objects, b"", ObjectKind::Commit).unwrap();
    assert_eq!(get_commit_tree(&objects, &empty), Err(FitError::InvalidData));
    assert_eq!(get_commit_tree(&objects, b"missing"), Err(FitError::NotFound));
}

#[test]
fn head_text() {
    assert_eq!(render_head(b"feat"), b("ref: refs/heads/feat\n"));
}

#[test]
fn current_branch_falls_back_to_master() {
    let mut repo = fresh();
    assert_eq!(get_current_branch(&repo).unwrap(), b("master"));
    repo.head = Some(b("  ref: refs/heads/topic/x \n"));
    assert_eq!(get_current_branch(&repo).unwrap(), b("topic/x"));
    repo.head = Some(b("0123456789"));
    assert_eq!(get_current_branch(&repo).unwrap(), b("master"));
    repo.head = None;
    assert_eq!(get_current_branch(&repo), Err(FitError::NotFound));
}

#[test]
fn current_commit_errors() {
    let mut repo = fresh();
    let initial = get_current_commit(&repo).unwrap();
    repo.refs.insert(b("master"), [initial.clone(), b("\n")].concat());
    assert_eq!(get_current_commit(&repo).unwrap(), initial);
    repo.head = Some(b("0123456789"));
    assert_eq!(get_current_commit(&repo), Err(FitError::InvalidData));
    repo.head = Some(b("ref: refs/tags/v1"));
    assert_eq!(get_current_commit(&repo), Err(FitError::NotFound));
    repo.head = Some(b("ref: refs/heads/nobranch"));
    assert_eq!(get_current_commit(&repo), Err(FitError::NotFound));
    repo.head = None;
    assert_eq!(get_current_commit(&repo), Err(FitError::NotFound));
}

#[test]
fn update_current_branch_writes_the_ref() {
    let mut repo = fresh();
    update_current_branch(&mut repo, b"abc").unwrap();
    assert_eq!(repo.refs.get(b"master").cloned(), Some(b("abc")));
    assert_eq!(get_current_commit(&repo).unwrap(), b("abc"));
    repo.head = None;
    assert_eq!(update_current_branch(&mut repo, b"def"), Err(FitError::NotFound));
    assert_eq!(repo.refs.get(b"master").cloned(), Some(b("abc")));
}

#[test]
fn create_branch_rules() {
    let mut repo = fresh();
    let initial = get_current_commit(&repo).unwrap();
    assert_eq!(create_branch(&mut repo, b"master"), Err(FitError::PermissionDenied));
    create_branch(&mut repo, b"feat").unwrap();
    assert_eq!(get_branch_commit(&repo, b"feat").unwrap(), initial);
    assert_eq!(create_branch(&mut repo, b"feat"), Err(FitError::AlreadyExists));
    assert_eq!(list_branches(&repo), vec![b("master"), b("feat")]);
    assert_eq!(get_branch_commit(&repo, b"nope"), Err(FitError::NotFound));
}

#[test]
fn delete_branch_rules() {
    let mut repo = fresh();
    create_branch(&mut repo, b"feat").unwrap();
    create_branch(&mut repo, b"other").unwrap();
    assert_eq!(delete_branch(&mut repo, b"master"), Err(FitError::PermissionDenied));
    assert_eq!(delete_branch(&mut repo, b"nope"), Err(FitError::NotFound));
    checkout_branch(&mut repo, b"feat").unwrap();
    assert_eq!(delete_branch(&mut repo, b"feat"), Err(FitError::PermissionDenied));
    delete_branch(&mut repo, b"other").unwrap();
    assert_eq!(list_branches(&repo), vec![b("master"), b("feat")]);
}

#[test]
fn checkout_rules() {
    let mut repo = fresh();
    assert_eq!(checkout_branch(&mut repo, b"nope"), Err(FitError::NotFound));
    assert_eq!(repo.head, Some(b("ref: refs/heads/master\n")));
    repo.refs.insert(b("broken"), b("0000000000000000000000000000000000000000"));
    assert_eq!(checkout_branch(&mut repo, b"broken"), Err(FitError::NotFound));
    assert_eq!(repo.head, Some(b("ref: refs/heads/master\n")));
    checkout_new_branch(&mut repo, b"feat").unwrap();
    assert_eq!(repo.head, Some(b("ref: refs/heads/feat\n")));
    assert_eq!(checkout_new_branch(&mut repo, b"feat"), Err(FitError::AlreadyExists));
    assert_eq!(checkout_new_branch(&mut repo, b"master"), Err(FitError::PermissionDenied));
}

#[test]
fn branch_command_dispatches() {
    let mut repo = fresh();
    assert_eq!(branch_workflow(&mut repo, BranchCommand::List).unwrap(), vec![b("master")]);
    assert!(branch_workflow(&mut repo, BranchCommand::Create(b("a"))).unwrap().is_empty());
    assert!(branch_workflow(&mut repo, BranchCommand::CheckoutNew(b("c"))).unwrap().is_empty());
    assert_eq!(get_current_branch(&repo).unwrap(), b("c"));
    assert!(branch_workflow(&mut repo, BranchCommand::Checkout(b("a"))).unwrap().is_empty());
    assert_eq!(get_current_branch(&repo).unwrap(), b("a"));
    assert!(branch_workflow(&mut repo, BranchCommand::Delete(b("c"))).unwrap().is_empty());
    assert_eq!(
        branch_workflow(&mut repo, BranchCommand::List).unwrap(),
        vec![b("master"), b("a")]
    );
    assert_eq!(
        branch_workflow(&mut repo, BranchCommand::Delete(b("zz"))).err(),
        Some(FitError::NotFound)
    );
}

#[test]
fn commit_with_nothing_staged_does_nothing() {
    let mut repo = fresh();
    let before = get_current_commit(&repo).unwrap();
    assert_eq!(commit_workflow(&mut repo, b"empty").unwrap(), None);
    assert_eq!(get_current_commit(&repo).unwrap(), before);
    assert_eq!(repo.objects.len(), 2);
}

#[test]
fn commit_records_parent_tree_and_message() {
    let mut repo = fresh();
    let initial = get_current_commit(&repo).unwrap();
    let first = commit_file(&mut repo, "a.txt", "hello\n", "first\n");
    assert_eq!(get_current_commit(&repo).unwrap(), first);
    let (kind, payload) = read_object(&repo.objects, &first).unwrap().unwrap();
    assert_eq!(kind, b("commit"));
    let tree = get_commit_tree(&repo.objects, &first).unwrap();
    let expected = [b("tree "), tree, b("\nparent "), initial, b("\n\nfirst\n")].concat();
    assert_eq!(payload, expected);
    assert_eq!(repo.staging, None);
    assert_eq!(repo.index, Some(b("ce013625030ba8dba906f756967f9e9ca394464a a.txt")));
}

#[test]
fn commit_chain_ends_at_the_initial_commit() {
    let mut repo = fresh();
    let initial = get_current_commit(&repo).unwrap();
    let first = commit_file(&mut repo, "a.txt", "1\n", "one");
    let second = commit_file(&mut repo, "a.txt", "2\n", "two");
    let third = commit_file(&mut repo, "b.txt", "3\n", "three");
    let history = get_commit_history(&repo.objects, &third).unwrap();
    assert_eq!(history, vec![third, second.clone(), first.clone(), initial.clone()]);
    assert_eq!(get_commit_history(&repo.objects, &first).unwrap(), vec![first, initial.clone()]);
    assert_eq!(get_commit_history(&repo.objects, &initial).unwrap(), vec![initial]);
    assert_eq!(get_commit_history(&repo.objects, b"").unwrap(), Vec::<Vec<u8>>::new());
    assert_eq!(get_commit_history(&repo.objects, b"missing"), Err(FitError::NotFound));
}

#[test]
fn history_of_a_cycle_is_rejected() {
    let mut objects = ByteMap::new();
    let stored = {
        let mut scratch = ByteMap::new();
        let h = write_object(&mut scratch, b"tree T\nparent loop\n\nm", ObjectKind::Commit).unwrap();
        scratch.get(&h).cloned().unwrap()
    };
    objects.insert(b("loop"), stored);
    assert_eq!(get_commit_history(&objects, b"loop"), Err(FitError::InvalidData));
    let mut repo = fresh();
    repo.objects = objects;
    repo.refs.insert(b("master"), b("loop"));
    assert_eq!(log_workflow(&repo).err(), Some(FitError::InvalidData));
}

#[test]
fn log_lists_newest_first() {
    let mut repo = fresh();
    let initial = get_current_commit(&repo).unwrap();
    let first = commit_file(&mut repo, "a.txt", "1\n", "  one \n");
    let log = log_workflow(&repo).unwrap();
    assert_eq!(log.len(), 2);
    assert_eq!(log[0].hash, first);
    assert_eq!(log[0].message, b("one"));
    let tree = get_commit_tree(&repo.objects, &first).unwrap();
    assert_eq!(log[0].info, [b("tree "), tree, b("\nparent "), initial.clone()].concat());
    assert_eq!(log[1].hash, initial);
    assert_eq!(log[1].info, b("tree 4b825dc642cb6eb9a060e54bf8d69288fbee4904"));
    assert_eq!(log[1].message, b("Initial commit"));
}

#[test]
fn log_stops_at_a_missing_commit() {
    let mut repo = fresh();
    repo.refs.insert(b("master"), b("0000"));
    assert!(log_workflow(&repo).unwrap().is_empty());
    repo.head = None;
    assert_eq!(log_workflow(&repo).err(), Some(FitError::NotFound));
}

#[test]
fn reset_errors_change_nothing() {
    let mut repo = fresh();
    commit_file(&mut repo, "a.txt", "hello\n", "first");
    let blob = b("ce013625030ba8dba906f756967f9e9ca394464a");
    let before_refs = repo.refs.get(b"master").cloned();
    assert_eq!(reset_workflow(&mut repo, b"missing"), Err(FitError::NotFound));
    assert_eq!(reset_workflow(&mut repo, &blob), Err(FitError::NotFound));
    let no_tree = write_object(&mut repo.objects, b"\n\nm", ObjectKind::Commit).unwrap();
    assert_eq!(reset_workflow(&mut repo, &no_tree), Err(FitError::InvalidData));
    let bad_tree = write_object(&mut repo.objects, b"tree 0000\n\nm", ObjectKind::Commit).unwrap();
    assert_eq!(reset_workflow(&mut repo, &bad_tree), Err(FitError::NotFound));
    assert_eq!(repo.refs.get(b"master").cloned(), before_refs);
    assert_eq!(repo.worktree.get(b"a.txt").cloned(), Some(b("hello\n")));
}

#[test]
fn reset_removes_files_that_the_commit_lacks() {
    let mut repo = fresh();
    let first = commit_file(&mut repo, "a.txt", "hello\n", "first");
    commit_file(&mut repo, "sub/b.txt", "b\n", "second");
    repo.worktree.insert(b("untracked.txt"), b("u\n"));
    repo.staging = Some(b("A 00 x\n"));
    reset_workflow(&mut repo, &first).unwrap();
    assert_eq!(repo.worktree.get(b"a.txt").cloned(), Some(b("hello\n")));
    assert_eq!(repo.worktree.get(b"sub/b.txt"), None);
    assert_eq!(repo.worktree.get(b"untracked.txt").cloned(), Some(b("u\n")));
    assert_eq!(repo.staging, None);
    assert_eq!(repo.index, Some(b("ce013625030ba8dba906f756967f9e9ca394464a a.txt")));
    assert_eq!(get_current_commit(&repo).unwrap(), first);
}

#[test]
fn merge_base_is_first_common_ancestor() {
    let mut repo = fresh();
    let initial = get_current_commit(&repo).unwrap();
    let base = commit_file(&mut repo, "a.txt", "1\n", "base");
    checkout_new_branch(&mut repo, b"feat").unwrap();
    let theirs = commit_file(&mut repo, "b.txt", "2\n", "theirs");
    checkout_branch(&mut repo, b"master").unwrap();
    assert_eq!(find_merge_base(&repo.objects, &base, &theirs).unwrap(), base);
    let ours = commit_file(&mut repo, "c.txt", "3\n", "ours");
    assert_eq!(find_merge_base(&repo.objects, &ours, &theirs).unwrap(), base);
    assert_eq!(find_merge_base(&repo.objects, &theirs, &ours).unwrap(), base);
    assert_eq!(find_merge_base(&repo.objects, &ours, &initial).unwrap(), initial);
    assert_eq!(find_merge_base(&repo.objects, &ours, b"missing"), Err(FitError::NotFound));
    let lone = write_object(&mut repo.objects, b"tree T\n\nlone", ObjectKind::Commit).unwrap();
    assert_eq!(find_merge_base(&repo.objects, &ours, &lone), Err(FitError::NotFound));
}

#[test]
fn merge_policy() {
    let mut repo = fresh();
    commit_file(&mut repo, "a.txt", "1\n", "base");
    create_branch(&mut repo, b"feat").unwrap();
    assert_eq!(merge_workflow(&mut repo, b"master"), Err(FitError::InvalidInput));
    assert_eq!(merge_workflow(&mut repo, b"nope"), Err(FitError::NotFound));
    assert_eq!(merge_workflow(&mut repo, b"feat").unwrap(), MergeOutcome::UpToDate);
    checkout_branch(&mut repo, b"feat").unwrap();
    assert_eq!(merge_workflow(&mut repo, b"feat"), Err(FitError::InvalidInput));
    assert_eq!(merge_workflow(&mut repo, b"master"), Err(FitError::PermissionDenied));
    create_branch(&mut repo, b"other").unwrap();
    assert_eq!(merge_workflow(&mut repo, b"other"), Err(FitError::PermissionDenied));
}

#[test]
fn merge_of_a_branch_behind_does_nothing() {
    let mut repo = fresh();
    commit_file(&mut repo, "a.txt", "1\n", "base");
    create_branch(&mut repo, b"old").unwrap();
    let ahead = commit_file(&mut repo, "a.txt", "2\n", "ahead");
    assert_eq!(merge_workflow(&mut repo, b"old").unwrap(), MergeOutcome::UpToDate);
    assert_eq!(get_current_commit(&repo).unwrap(), ahead);
    assert_eq!(repo.worktree.get(b"a.txt").cloned(), Some(b("2\n")));
}

#[test]
fn merge_of_diverged_branches_is_unsupported() {
    let mut repo = fresh();
    commit_file(&mut repo, "a.txt", "1\n", "base");
    checkout_new_branch(&mut repo, b"feat").unwrap();
    commit_file(&mut repo, "b.txt", "2\n", "theirs");
    checkout_branch(&mut repo, b"master").unwrap();
    let ours = commit_file(&mut repo, "c.txt", "3\n", "ours");
    assert_eq!(merge_workflow(&mut repo, b"feat").unwrap(), MergeOutcome::Unsupported);
    assert_eq!(get_current_commit(&repo).unwrap(), ours);
    assert_eq!(repo.worktree.get(b"b.txt"), None);
}

#[test]
fn fast_forward_is_a_reset() {
    let mut repo = fresh();
    let first = commit_file(&mut repo, "a.txt", "1\n", "one");
    commit_file(&mut repo, "a.txt", "2\n", "two");
    fast_forward_merge(&mut repo, &first).unwrap();
    assert_eq!(get_current_commit(&repo).unwrap(), first);
    assert_eq!(repo.worktree.get(b"a.txt").cloned(), Some(b("1\n")));
}

#[test]
fn parent_is_not_read_from_the_message() {
    let mut objects = ByteMap::new();
    let lone =
        write_object(&mut objects, b"tree T\n\nparent 0000\nis only text", ObjectKind::Commit)
            .unwrap();
    assert_eq!(get_commit_history(&objects, &lone).unwrap(), vec![lone.clone()]);
    let child_text = [b("tree T\nparent "), lone.clone(), b("\n\nparent 1111")].concat();
    let child = write_object(&mut objects, &child_text, ObjectKind::Commit).unwrap();
    assert_eq!(get_commit_history(&objects, &child).unwrap(), vec![child, lone]);
}
