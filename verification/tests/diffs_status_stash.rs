use fit::add::{add_workflow, rm_workflow};
use fit::branch::{checkout_branch, checkout_new_branch};
use fit::bytemap::ByteMap;
use fit::diff::{
    can_diff, diff_commits, diff_maps, diff_staged_vs_latest, diff_workflow, list_changes,
    print_diff, render_diff_line, try_print_diff, DiffLine, DiffTag, FileDiff,
};
use fit::error::FitError;
use fit::object::{write_object, ObjectKind};
use fit::refs::get_current_commit;
use fit::repo::Repository;
use fit::snapshot::{commit_workflow, init_workflow};
use fit::stash::{
    pop_stashed_content, read_stashing_area, stash_content, stash_workflow, write_stashing_area,
};
use fit::status::{list_untracked, status_workflow, ChangeKind, StatusLine};

fn b(s: &str) -> Vec<u8> {
    s.as_bytes().to_vec()
}

fn fresh() -> Repository {
    let mut repo = Repository::new(ByteMap::new());
    init_workflow(&mut repo).unwrap();
    repo
}

fn commit_file(repo: &mut Repository, path: &str, content: &str, message: &str) -> Vec<u8> {
    repo.worktree.insert(b(path), b(content));
    add_workflow(repo, path.as_bytes()).unwrap();
    commit_workflow(repo, message.as_bytes()).unwrap().unwrap()
}

fn script(lines: &[DiffLine]) -> Vec<(DiffTag, Vec<u8>)> {
    lines.iter().map(|l| (l.tag, l.text.clone())).collect()
}

fn printed(lines: &[DiffLine]) -> String {
    let mut out = String::new();
    for l in lines {
        out.push_str(&String::from_utf8_lossy(&render_diff_line(l)));
        out.push('\n');
    }
    out
}

fn summary(diffs: &[FileDiff]) -> Vec<(String, String)> {
    diffs
        .iter()
        .map(|d| (String::from_utf8_lossy(&d.path).to_string(), printed(&d.lines)))
        .collect()
}

fn status_lines(lines: &[StatusLine]) -> Vec<(ChangeKind, Vec<u8>)> {
    lines.iter().map(|l| (l.kind, l.path.clone())).collect()
}

#[test]
fn line_diff_tags_each_line() {
    let d = print_diff(b"f.txt", b"a\nb\nc", b"a\nx\nc");
    assert_eq!(d.path, b("f.txt"));
    assert_eq!(
        script(&d.lines),
        vec![
            (DiffTag::Both, b("a")),
            (DiffTag::Left, b("b")),
            (DiffTag::Right, b("x")),
            (DiffTag::Both, b("c")),
        ]
    );
}

#[test]
fn line_diff_of_new_and_deleted_content() {
    assert_eq!(printed(&print_diff(b"f", b"", b"one\ntwo").lines), "+one\n+two\n");
    assert_eq!(printed(&print_diff(b"f", b"one\ntwo", b"").lines), "-one\n-two\n");
    assert_eq!(printed(&print_diff(b"f", b"", b"").lines), "");
    assert_eq!(printed(&print_diff(b"f", b"same\n", b"same\n").lines), " same\n \n");
    assert_eq!(printed(&print_diff(b"f", b"a\n", b"a").lines), " a\n-\n");
}

#[test]
fn differ_limits() {
    assert!(can_diff(b"", b""));
    assert!(can_diff(b"abc", b"defg"));
    assert!(try_print_diff(b"f", b"a", b"b").is_some());
}

#[test]
fn changes_between_maps() {
    let mut a = ByteMap::new();
    a.insert(b("same"), b("h0"));
    a.insert(b("changed"), b("h1"));
    a.insert(b("gone"), b("h2"));
    let mut c = ByteMap::new();
    c.insert(b("new"), b("h9"));
    c.insert(b("changed"), b("h3"));
    c.insert(b("same"), b("h0"));
    let forward: Vec<_> = list_changes(&a, &c)
        .into_iter()
        .map(|x| (x.path, x.first, x.second))
        .collect();
    assert_eq!(
        forward,
        vec![
            (b("changed"), Some(b("h1")), Some(b("h3"))),
            (b("gone"), Some(b("h2")), None),
            (b("new"), None, Some(b("h9"))),
        ]
    );
    let mut backward: Vec<_> = list_changes(&c, &a)
        .into_iter()
        .map(|x| (x.path, x.second, x.first))
        .collect();
    let mut sorted = forward.clone();
    sorted.sort();
    backward.sort();
    assert_eq!(sorted, backward);
}

#[test]
fn diff_between_commits() {
    let mut repo = fresh();
    let first = commit_file(&mut repo, "a.txt", "one\ntwo\n", "first");
    repo.worktree.insert(b("b.txt"), b("new\n"));
    add_workflow(&mut repo, b"b.txt").unwrap();
    let second = commit_file(&mut repo, "a.txt", "one\n2\n", "second");
    let forward = diff_commits(&repo.objects, &first, &second).unwrap();
    assert_eq!(
        summary(&forward),
        vec![
            ("a.txt".to_string(), " one\n-two\n+2\n \n".to_string()),
            ("b.txt".to_string(), "+new\n+\n".to_string()),
        ]
    );
    let backward = diff_commits(&repo.objects, &second, &first).unwrap();
    assert_eq!(
        summary(&backward),
        vec![
            ("a.txt".to_string(), " one\n-2\n+two\n \n".to_string()),
            ("b.txt".to_string(), "-new\n-\n".to_string()),
        ]
    );
    assert!(diff_commits(&repo.objects, &first, &first).unwrap().is_empty());
}

#[test]
fn diff_symmetry_on_paths() {
    let mut repo = fresh();
    let first = commit_file(&mut repo, "a.txt", "1\n", "first");
    commit_file(&mut repo, "b.txt", "2\n", "second");
    rm_workflow(&mut repo, b"a.txt").unwrap();
    let third = commit_file(&mut repo, "c.txt", "3\n", "third");
    let mut forward: Vec<_> =
        diff_commits(&repo.objects, &first, &third).unwrap().into_iter().map(|d| d.path).collect();
    let mut backward: Vec<_> =
        diff_commits(&repo.objects, &third, &first).unwrap().into_iter().map(|d| d.path).collect();
    forward.sort();
    backward.sort();
    assert_eq!(forward, vec![b("a.txt"), b("b.txt"), b("c.txt")]);
    assert_eq!(forward, backward);
}

#[test]
fn diff_errors() {
    let mut repo = fresh();
    let first = commit_file(&mut repo, "a.txt", "1\n", "first");
    assert_eq!(diff_commits(&repo.objects, b"missing", &first).err(), Some(FitError::NotFound));
    assert_eq!(diff_commits(&repo.objects, &first, b"missing").err(), Some(FitError::NotFound));
    let mut a = ByteMap::new();
    a.insert(b("p"), b("no such blob"));
    assert_eq!(
        diff_maps(&repo.objects, &a, &ByteMap::new(), true).err(),
        Some(FitError::NotFound)
    );
    let bad = write_object(&mut repo.objects, b"tree\n\nm", ObjectKind::Commit).unwrap();
    assert_eq!(diff_commits(&repo.objects, &bad, &first).err(), Some(FitError::InvalidData));
}

#[test]
fn diff_of_index_against_head() {
    let mut repo = fresh();
    commit_file(&mut repo, "a.txt", "one\n", "first");
    commit_file(&mut repo, "gone.txt", "bye\n", "second");
    assert!(diff_staged_vs_latest(&repo).unwrap().is_empty());
    repo.worktree.insert(b("a.txt"), b("uno\n"));
    add_workflow(&mut repo, b"a.txt").unwrap();
    repo.worktree.insert(b("n.txt"), b("n\n"));
    add_workflow(&mut repo, b"n.txt").unwrap();
    rm_workflow(&mut repo, b"gone.txt").unwrap();
    let diffs = diff_workflow(&repo, None).unwrap();
    assert_eq!(
        summary(&diffs),
        vec![
            ("a.txt".to_string(), "-one\n+uno\n \n".to_string()),
            ("n.txt".to_string(), "+n\n+\n".to_string()),
            ("gone.txt".to_string(), "-bye\n-\n".to_string()),
        ]
    );
}

#[test]
fn diff_command_with_two_commits() {
    let mut repo = fresh();
    let first = commit_file(&mut repo, "a.txt", "1\n", "first");
    let second = commit_file(&mut repo, "a.txt", "2\n", "second");
    let diffs = diff_workflow(&repo, Some((&first, &second))).unwrap();
    assert_eq!(summary(&diffs), vec![("a.txt".to_string(), "-1\n+2\n \n".to_string())]);
}

#[test]
fn status_sections() {
    let mut repo = fresh();
    commit_file(&mut repo, "kept.txt", "k\n", "one");
    commit_file(&mut repo, "edited.txt", "e\n", "two");
    commit_file(&mut repo, "lost.txt", "l\n", "three");
    commit_file(&mut repo, "removed.txt", "r\n", "four");
    commit_file(&mut repo, "restaged.txt", "s\n", "five");
    repo.worktree.insert(b("edited.txt"), b("E\n"));
    repo.worktree.remove(b"lost.txt");
    rm_workflow(&mut repo, b"removed.txt").unwrap();
    repo.worktree.insert(b("restaged.txt"), b("S\n"));
    add_workflow(&mut repo, b"restaged.txt").unwrap();
    repo.worktree.insert(b("fresh.txt"), b("f\n"));
    add_workflow(&mut repo, b"fresh.txt").unwrap();
    repo.worktree.insert(b("untracked.txt"), b("u\n"));
    repo.worktree.insert(b("dir/deep.txt"), b("d\n"));
    let report = status_workflow(&mut repo).unwrap();
    assert_eq!(report.branch, b("master"));
    assert_eq!(
        status_lines(&report.staged),
        vec![
            (ChangeKind::New, b("fresh.txt")),
            (ChangeKind::Modified, b("restaged.txt")),
            (ChangeKind::Deleted, b("removed.txt")),
        ]
    );
    assert_eq!(
        status_lines(&report.unstaged),
        vec![(ChangeKind::Modified, b("edited.txt")), (ChangeKind::Deleted, b("lost.txt"))]
    );
    assert_eq!(report.untracked, vec![b("removed.txt"), b("untracked.txt")]);
}

#[test]
fn status_writes_the_blobs_it_hashes() {
    let mut repo = fresh();
    commit_file(&mut repo, "a.txt", "1\n", "one");
    let before = repo.objects.len();
    repo.worktree.insert(b("a.txt"), b("changed\n"));
    status_workflow(&mut repo).unwrap();
    assert_eq!(repo.objects.len(), before + 1);
}

#[test]
fn status_errors() {
    let mut repo = fresh();
    repo.index = None;
    assert_eq!(status_workflow(&mut repo).err(), Some(FitError::NotFound));
    let mut repo = fresh();
    repo.head = None;
    assert_eq!(status_workflow(&mut repo).err(), Some(FitError::NotFound));
}

#[test]
fn untracked_are_top_level_files_outside_the_index() {
    let mut worktree = ByteMap::new();
    worktree.insert(b("a"), b(""));
    worktree.insert(b("d/b"), b(""));
    worktree.insert(b("c"), b(""));
    let mut index = ByteMap::new();
    index.insert(b("c"), b("h"));
    assert_eq!(list_untracked(&worktree, &index), vec![b("a")]);
}

#[test]
fn stash_file_is_a_stack() {
    let mut repo = Repository::new(ByteMap::new());
    assert_eq!(read_stashing_area(&mut repo), None);
    write_stashing_area(&mut repo, b"aa11");
    assert_eq!(repo.stash, Some(b("aa11\n")));
    write_stashing_area(&mut repo, b"bb22");
    assert_eq!(repo.stash, Some(b("bb22\naa11")));
    write_stashing_area(&mut repo, b"cc33");
    assert_eq!(repo.stash, Some(b("cc33\nbb22\naa11")));
    assert_eq!(read_stashing_area(&mut repo), Some(b("cc33")));
    assert_eq!(repo.stash, Some(b("bb22\naa11")));
    assert_eq!(read_stashing_area(&mut repo), Some(b("bb22")));
    assert_eq!(read_stashing_area(&mut repo), Some(b("aa11")));
    assert_eq!(repo.stash, Some(b("")));
    assert_eq!(read_stashing_area(&mut repo), None);
    assert_eq!(repo.stash, Some(b("")));
}

#[test]
fn stash_pop_is_last_in_first_out() {
    let mut repo = fresh();
    let base = commit_file(&mut repo, "a.txt", "base\n", "base");
    let mut issued = Vec::new();
    for n in 1..=3 {
        repo.worktree.insert(b("a.txt"), format!("work {}\n", n).into_bytes());
        add_workflow(&mut repo, b"a.txt").unwrap();
        issued.push(stash_workflow(&mut repo, false).unwrap());
        assert_eq!(repo.worktree.get(b"a.txt").cloned(), Some(b("base\n")));
        assert_eq!(get_current_commit(&repo).unwrap(), base);
    }
    for n in (1..=3).rev() {
        let popped = stash_workflow(&mut repo, true).unwrap();
        assert_eq!(popped, issued[n - 1]);
        assert_eq!(
            repo.worktree.get(b"a.txt").cloned(),
            Some(format!("work {}\n", n).into_bytes())
        );
    }
    assert_eq!(stash_workflow(&mut repo, true), Err(FitError::NotFound));
}

#[test]
fn stash_commit_has_message_and_parent() {
    let mut repo = fresh();
    let base = commit_file(&mut repo, "a.txt", "base\n", "base");
    repo.worktree.insert(b("b.txt"), b("b\n"));
    add_workflow(&mut repo, b"b.txt").unwrap();
    let stash = stash_content(&mut repo).unwrap();
    let (kind, payload) = fit::object::read_object(&repo.objects, &stash).unwrap().unwrap();
    assert_eq!(kind, b("commit"));
    let text = String::from_utf8(payload).unwrap();
    assert!(text.starts_with("tree "));
    assert!(text.ends_with(&format!("\nparent {}\n\nstash", String::from_utf8(base).unwrap())));
    assert_eq!(repo.staging, None);
}

#[test]
fn pop_of_empty_stash_fails() {
    let mut repo = fresh();
    assert_eq!(pop_stashed_content(&mut repo), Err(FitError::NotFound));
    repo.stash = Some(b(""));
    assert_eq!(pop_stashed_content(&mut repo), Err(FitError::NotFound));
    repo.stash = Some(b("0000\nmore"));
    assert_eq!(pop_stashed_content(&mut repo), Err(FitError::NotFound));
    assert_eq!(repo.stash, Some(b("0000\nmore")));
}

#[test]
fn stash_without_index_fails() {
    let mut repo = fresh();
    repo.index = None;
    assert_eq!(stash_content(&mut repo), Err(FitError::NotFound));
    assert_eq!(repo.stash, None);
    assert_eq!(repo.objects.len(), 2);
}

#[test]
fn add_commit_reset_restores_the_file() {
    let mut repo = fresh();
    let content = "line one\r\n\ttabbed \0 nul\nlast line without end";
    let commit = commit_file(&mut repo, "dir/file.bin", content, "keep");
    repo.worktree.insert(b("dir/file.bin"), b("overwritten"));
    commit_file(&mut repo, "other.txt", "o\n", "later");
    repo.worktree.remove(b"dir/file.bin");
    fit::materialize::reset_workflow(&mut repo, &commit).unwrap();
    assert_eq!(repo.worktree.get(b"dir/file.bin").cloned(), Some(b(content)));
    assert_eq!(repo.worktree.get(b"other.txt"), None);
}

#[test]
fn branch_files_name_commits() {
    let mut repo = fresh();
    commit_file(&mut repo, "a.txt", "1\n", "one");
    checkout_new_branch(&mut repo, b"feat").unwrap();
    commit_file(&mut repo, "a.txt", "2\n", "two");
    checkout_branch(&mut repo, b"master").unwrap();
    repo.worktree.insert(b("a.txt"), b("3\n"));
    add_workflow(&mut repo, b"a.txt").unwrap();
    stash_content(&mut repo).unwrap();
    pop_stashed_content(&mut repo).unwrap();
    for i in 0..repo.refs.len() {
        let hash = fit::text::trim(repo.refs.value_at(i));
        let (kind, _) = fit::object::read_object(&repo.objects, &hash).unwrap().unwrap();
        assert_eq!(kind, b("commit"));
    }
}

#[test]
fn diff_lines_are_shown_with_their_mark() {
    let line = |tag, text: &str| DiffLine { tag, text: b(text) };
    assert_eq!(render_diff_line(&line(DiffTag::Left, "gone")), b("-gone"));
    assert_eq!(render_diff_line(&line(DiffTag::Right, "new")), b("+new"));
    assert_eq!(render_diff_line(&line(DiffTag::Both, "kept")), b(" kept"));
    assert_eq!(render_diff_line(&line(DiffTag::Both, "")), b(" "));
}
