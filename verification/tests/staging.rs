use fit::add::{add_directory, add_file, add_workflow, rm_workflow, RmOutcome};
use fit::bytemap::ByteMap;
use fit::error::FitError;
use fit::index::{parse_rows, read_index, render_index, write_index};
use fit::repo::Repository;
use fit::snapshot::{apply_staging, commit_workflow, init_workflow};
use fit::staging::StagingArea;
use fit::staging_file::{read_staging_area, render_staging, write_staging_area};

fn b(s: &str) -> Vec<u8> {
    s.as_bytes().to_vec()
}

fn keys(m: &ByteMap) -> Vec<Vec<u8>> {
    (0..m.len()).map(|i| m.key_at(i).clone()).collect()
}

fn count_partitions(area: &StagingArea, path: &[u8]) -> usize {
    let mut n = 0;
    if area.added().contains_key(path) {
        n += 1;
    }
    if area.modified().contains_key(path) {
        n += 1;
    }
    if area.deleted().contains_key(path) {
        n += 1;
    }
    n
}

fn repo_with(files: &[(&str, &str)]) -> Repository {
    let mut worktree = ByteMap::new();
    for (path, content) in files {
        worktree.insert(b(path), b(content));
    }
    let mut repo = Repository::new(worktree);
    init_workflow(&mut repo).unwrap();
    repo
}

#[test]
fn bytemap_keeps_insertion_order_and_replaces_in_place() {
    let mut m = ByteMap::new();
    assert_eq!(m.len(), 0);
    m.insert(b("b"), b("1"));
    m.insert(b("a"), b("2"));
    m.insert(b("b"), b("3"));
    assert_eq!(keys(&m), vec![b("b"), b("a")]);
    assert_eq!(m.get(b"b").cloned(), Some(b("3")));
    assert_eq!(m.get(b"a").cloned(), Some(b("2")));
    assert_eq!(m.get(b"c"), None);
    assert_eq!(m.find(b"a"), 1);
    assert_eq!(m.find(b"zz"), 2);
    assert_eq!(m.remove(b"b"), Some(b("3")));
    assert_eq!(m.remove(b"b"), None);
    assert_eq!(keys(&m), vec![b("a")]);
    assert!(m.contains_key(b"a"));
    assert!(!m.contains_key(b"b"));
    let copy = m.copy();
    assert_eq!(keys(&copy), vec![b("a")]);
    assert_eq!(copy.value_at(0), &b("2"));
}

#[test]
fn new_area_is_empty() {
    let area = StagingArea::new();
    assert!(area.is_empty());
    assert!(!area.is_staged(b"a.txt"));
}

#[test]
fn is_staged_looks_at_all_three_partitions() {
    let mut area = StagingArea::new();
    area.add(b("a"), b("h1"));
    area.modify(b("m"), b("h2"));
    area.delete(b("d"));
    assert!(area.is_staged(b"a"));
    assert!(area.is_staged(b"m"));
    assert!(area.is_staged(b"d"));
    assert!(!area.is_staged(b"x"));
    assert!(!area.is_empty());
    assert_eq!(area.added().get(b"a").cloned(), Some(b("h1")));
    assert_eq!(area.modified().get(b"m").cloned(), Some(b("h2")));
    assert!(area.deleted().contains_key(b"d"));
}

#[test]
fn a_path_is_in_one_partition_only() {
    let mut area = StagingArea::new();
    area.add(b("p"), b("h1"));
    assert_eq!(count_partitions(&area, b"p"), 1);
    area.delete(b("p"));
    assert_eq!(count_partitions(&area, b"p"), 1);
    assert!(area.deleted().contains_key(b"p"));
    area.modify(b("p"), b("h2"));
    assert_eq!(count_partitions(&area, b"p"), 1);
    assert_eq!(area.modified().get(b"p").cloned(), Some(b("h2")));
    area.add(b("p"), b("h3"));
    assert_eq!(count_partitions(&area, b"p"), 1);
    assert_eq!(area.added().get(b"p").cloned(), Some(b("h3")));
    area.delete(b("p"));
    area.delete(b("p"));
    assert_eq!(area.deleted().len(), 1);
}

#[test]
fn staging_text_is_byte_exact() {
    let mut area = StagingArea::new();
    area.delete(b("gone.txt"));
    area.modify(b("m.txt"), b("bbbb"));
    area.add(b("a.txt"), b("aaaa"));
    area.add(b("dir/c.txt"), b("cccc"));
    assert_eq!(
        render_staging(&area),
        b("A aaaa a.txt\nA cccc dir/c.txt\nM bbbb m.txt\nD gone.txt\n")
    );
    assert_eq!(render_staging(&StagingArea::new()), b(""));
}

#[test]
fn staging_file_round_trip() {
    let mut repo = Repository::new(ByteMap::new());
    let mut area = StagingArea::new();
    area.add(b("a.txt"), b("aaaa"));
    area.modify(b("m.txt"), b("bbbb"));
    area.delete(b("gone.txt"));
    write_staging_area(&mut repo, &area);
    assert_eq!(repo.staging, Some(b("A aaaa a.txt\nM bbbb m.txt\nD gone.txt\n")));
    let back = read_staging_area(&repo);
    assert_eq!(back.added().get(b"a.txt").cloned(), Some(b("aaaa")));
    assert_eq!(back.modified().get(b"m.txt").cloned(), Some(b("bbbb")));
    assert!(back.deleted().contains_key(b"gone.txt"));
    assert_eq!(back.added().len() + back.modified().len() + back.deleted().len(), 3);
}

#[test]
fn empty_area_removes_the_staging_file() {
    let mut repo = Repository::new(ByteMap::new());
    repo.staging = Some(b("A aaaa a.txt\n"));
    write_staging_area(&mut repo, &StagingArea::new());
    assert_eq!(repo.staging, None);
    assert!(read_staging_area(&repo).is_empty());
}

#[test]
fn staging_reader_takes_the_known_forms() {
    let mut repo = Repository::new(ByteMap::new());
    repo.staging = Some(b("X aaaa a.txt\nA onlyhash\n\nD\nA h1 one extra\nM h2 two\nD three\nD four five\n"));
    let area = read_staging_area(&repo);
    assert_eq!(area.added().len(), 0);
    assert_eq!(area.modified().len(), 1);
    assert_eq!(area.modified().get(b"two").cloned(), Some(b("h2")));
    assert_eq!(keys(area.deleted()), vec![b("three")]);
}

#[test]
fn later_staging_lines_win() {
    let mut repo = Repository::new(ByteMap::new());
    repo.staging = Some(b("A h1 p\nD p\nM h2 q\nA h3 q\n"));
    let area = read_staging_area(&repo);
    assert_eq!(count_partitions(&area, b"p"), 1);
    assert!(area.deleted().contains_key(b"p"));
    assert_eq!(count_partitions(&area, b"q"), 1);
    assert_eq!(area.added().get(b"q").cloned(), Some(b("h3")));
}

#[test]
fn index_text_is_byte_exact() {
    let mut index = ByteMap::new();
    index.insert(b("a.txt"), b("aaaa"));
    index.insert(b("dir/b.txt"), b("bbbb"));
    assert_eq!(render_index(&index), b("aaaa a.txt\nbbbb dir/b.txt"));
    assert_eq!(render_index(&ByteMap::new()), b(""));
}

#[test]
fn index_round_trip() {
    let mut repo = Repository::new(ByteMap::new());
    let mut index = ByteMap::new();
    index.insert(b("a.txt"), b("aaaa"));
    index.insert(b("dir/b.txt"), b("bbbb"));
    write_index(&mut repo, &index);
    assert_eq!(repo.index, Some(b("aaaa a.txt\nbbbb dir/b.txt")));
    let back = read_index(&repo).unwrap();
    assert_eq!(keys(&back), vec![b("a.txt"), b("dir/b.txt")]);
    assert_eq!(back.get(b"a.txt").cloned(), Some(b("aaaa")));
    assert_eq!(back.get(b"dir/b.txt").cloned(), Some(b("bbbb")));
}

#[test]
fn index_errors() {
    let mut repo = Repository::new(ByteMap::new());
    assert_eq!(read_index(&repo).err(), Some(FitError::NotFound));
    repo.index = Some(b("aaaa a.txt\nonlyone\n"));
    assert_eq!(read_index(&repo).err(), Some(FitError::InvalidData));
    repo.index = Some(b("aaaa a.txt\n\nbbbb b.txt"));
    assert_eq!(read_index(&repo).err(), Some(FitError::InvalidData));
    repo.index = Some(b(""));
    assert_eq!(read_index(&repo).unwrap().len(), 0);
}

#[test]
fn rows_take_the_named_columns() {
    let m = parse_rows(b"100644 blob h1 one\n100644 blob h2 two\n100644 blob h3 one\n", 2, 3).unwrap();
    assert_eq!(keys(&m), vec![b("one"), b("two")]);
    assert_eq!(m.get(b"one").cloned(), Some(b("h3")));
    assert!(parse_rows(b"a b c\n", 2, 3).is_none());
    assert_eq!(parse_rows(b"", 2, 3).unwrap().len(), 0);
}

#[test]
fn add_file_classifies() {
    let mut objects = ByteMap::new();
    let mut staging = StagingArea::new();
    let mut index = ByteMap::new();
    add_file(&mut objects, b"a.txt", b"hello\n", &mut staging, &mut index).unwrap();
    let h1 = b("ce013625030ba8dba906f756967f9e9ca394464a");
    assert_eq!(staging.added().get(b"a.txt").cloned(), Some(h1.clone()));
    assert_eq!(index.get(b"a.txt").cloned(), Some(h1.clone()));
    assert!(objects.contains_key(&h1));

    let mut staging = StagingArea::new();
    add_file(&mut objects, b"a.txt", b"hello\n", &mut staging, &mut index).unwrap();
    assert!(staging.is_empty());
    assert_eq!(index.get(b"a.txt").cloned(), Some(h1.clone()));

    add_file(&mut objects, b"a.txt", b"", &mut staging, &mut index).unwrap();
    let h2 = b("e69de29bb2d1d6434b8b29ae775ad8c2e48c5391");
    assert_eq!(staging.modified().get(b"a.txt").cloned(), Some(h2.clone()));
    assert_eq!(staging.added().len(), 0);
    assert_eq!(index.get(b"a.txt").cloned(), Some(h2));
}

#[test]
fn add_directory_takes_the_files_under_it() {
    let mut worktree = ByteMap::new();
    worktree.insert(b("src/a.rs"), b("a"));
    worktree.insert(b("src2/x.rs"), b("x"));
    worktree.insert(b("src/deep/b.rs"), b("b"));
    worktree.insert(b("src"), b("not here"));
    worktree.insert(b("top.txt"), b("t"));
    let mut objects = ByteMap::new();
    let mut staging = StagingArea::new();
    let mut index = ByteMap::new();
    let paths =
        add_directory(&mut objects, &worktree, b"src", &mut staging, &mut index).unwrap();
    assert_eq!(paths, vec![b("src/a.rs"), b("src/deep/b.rs")]);
    assert_eq!(keys(&index), vec![b("src/a.rs"), b("src/deep/b.rs")]);
    let with_slash =
        add_directory(&mut objects, &worktree, b"src/", &mut staging, &mut index).unwrap();
    assert_eq!(with_slash, vec![b("src/a.rs"), b("src/deep/b.rs")]);
    let all = add_directory(&mut objects, &worktree, b".", &mut staging, &mut index).unwrap();
    assert_eq!(all.len(), 5);
    let none = add_directory(&mut objects, &worktree, b"nowhere", &mut staging, &mut index).unwrap();
    assert!(none.is_empty());
}

#[test]
fn add_updates_index_and_staging_file() {
    let mut repo = repo_with(&[("a.txt", "hello\n"), ("d/b.txt", "b\n"), ("d/c.txt", "c\n")]);
    assert_eq!(add_workflow(&mut repo, b"a.txt").unwrap(), vec![b("a.txt")]);
    assert_eq!(repo.index, Some(b("ce013625030ba8dba906f756967f9e9ca394464a a.txt")));
    assert_eq!(repo.staging, Some(b("A ce013625030ba8dba906f756967f9e9ca394464a a.txt\n")));
    assert_eq!(add_workflow(&mut repo, b"d").unwrap(), vec![b("d/b.txt"), b("d/c.txt")]);
    assert_eq!(read_index(&repo).unwrap().len(), 3);
    assert_eq!(read_staging_area(&repo).added().len(), 3);
}

#[test]
fn add_of_invalid_path_takes_nothing() {
    let mut repo = repo_with(&[("a.txt", "hello\n")]);
    assert!(add_workflow(&mut repo, b"missing.txt").unwrap().is_empty());
    assert_eq!(repo.staging, None);
    assert_eq!(repo.index, Some(b("")));
}

#[test]
fn add_without_index_fails() {
    let mut worktree = ByteMap::new();
    worktree.insert(b("a.txt"), b("hello\n"));
    let mut repo = Repository::new(worktree);
    assert_eq!(add_workflow(&mut repo, b"a.txt").err(), Some(FitError::NotFound));
    assert_eq!(repo.objects.len(), 0);
}

#[test]
fn rm_outcomes() {
    let mut repo = repo_with(&[("a.txt", "hello\n"), ("u.txt", "u\n")]);
    add_workflow(&mut repo, b"a.txt").unwrap();
    commit_workflow(&mut repo, b"first").unwrap().unwrap();
    assert_eq!(rm_workflow(&mut repo, b"missing.txt").unwrap(), RmOutcome::Missing);
    assert_eq!(rm_workflow(&mut repo, b"u.txt").unwrap(), RmOutcome::Untracked);
    assert_eq!(repo.staging, None);
    assert_eq!(rm_workflow(&mut repo, b"a.txt").unwrap(), RmOutcome::Removed);
    assert_eq!(repo.staging, Some(b("D a.txt\n")));
    assert_eq!(repo.index, Some(b("")));
    assert!(repo.worktree.contains_key(b"a.txt"));
    assert_eq!(rm_workflow(&mut repo, b"a.txt").unwrap(), RmOutcome::Untracked);
}

#[test]
fn apply_staging_stores_and_drops() {
    let mut index = ByteMap::new();
    index.insert(b("keep"), b("k"));
    index.insert(b("change"), b("old"));
    index.insert(b("gone"), b("g"));
    let mut area = StagingArea::new();
    area.add(b("new"), b("n"));
    area.modify(b("change"), b("new"));
    area.delete(b("gone"));
    apply_staging(&mut index, &area);
    assert_eq!(keys(&index), vec![b("keep"), b("change"), b("new")]);
    assert_eq!(index.get(b"change").cloned(), Some(b("new")));
}
